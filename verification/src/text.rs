use vstd::prelude::*;

verus! {

/// The pieces of `s` between occurrences of `sep`, in order. A sequence
/// without `sep` is its own single piece; `n` occurrences give `n + 1`
/// pieces, some of which may be empty.
pub open spec fn split_on(s: Seq<char>, sep: char) -> Seq<Seq<char>>
    decreases s.len(),
{
    if s.len() == 0 {
        seq![Seq::<char>::empty()]
    } else {
        let before = split_on(s.drop_last(), sep);
        if s.last() == sep {
            before.push(Seq::<char>::empty())
        } else {
            before.drop_last().push(before.last().push(s.last()))
        }
    }
}

/// The pieces of `pieces` written one after the other with `sep` between
/// neighbours.
pub open spec fn join_with(pieces: Seq<Seq<char>>, sep: char) -> Seq<char>
    decreases pieces.len(),
{
    if pieces.len() == 0 {
        Seq::<char>::empty()
    } else if pieces.len() == 1 {
        pieces[0]
    } else {
        join_with(pieces.drop_last(), sep).push(sep) + pieces.last()
    }
}

/// Splitting loses nothing: there is at least one piece, no piece holds the
/// separator, and joining the pieces with the separator gives the input back.
pub proof fn lemma_split_on_inverts_join(s: Seq<char>, sep: char)
    ensures
        split_on(s, sep).len() >= 1,
        forall|k: int|
            0 <= k < split_on(s, sep).len() ==> !(#[trigger] split_on(s, sep)[k]).contains(sep),
        join_with(split_on(s, sep), sep) == s,
    decreases s.len(),
{
    if s.len() > 0 {
        let before = split_on(s.drop_last(), sep);
        let pieces = split_on(s, sep);
        lemma_split_on_inverts_join(s.drop_last(), sep);
        if s.last() == sep {
            assert(pieces.drop_last() =~= before);
        } else {
            let grown = before.last().push(s.last());
            assert(!grown.contains(sep)) by {
                if grown.contains(sep) {
                    let i = grown.index_of(sep);
                    assert(before.last()[i] == sep);
                }
            }
            if before.len() > 1 {
                let head = join_with(before.drop_last(), sep).push(sep);
                assert(pieces.drop_last() =~= before.drop_last());
                assert(head + grown =~= (head + before.last()).push(s.last()));
            }
        }
    }
}

/// Splits `text` into the pieces between occurrences of `sep`.
pub fn split(text: &str, sep: char) -> (pieces: Vec<String>)
    ensures
        pieces.deep_view() == split_on(text@, sep),
{
    let mut pieces: Vec<String> = Vec::new();
    let mut start: usize = 0;
    let mut pos: usize = 0;
    let len: usize = text.unicode_len();
    proof {
        assert(text@.take(0) =~= Seq::<char>::empty());
    }
    for c in it: text.chars()
        invariant
            len == text@.len(),
            it.seq() == text@,
            pos == it.index(),
            start <= pos <= len,
            pieces.deep_view().push(text@.subrange(start as int, pos as int)) == split_on(
                text@.take(pos as int),
                sep,
            ),
    {
        proof {
            let prefix = text@.take(pos + 1);
            assert(prefix.drop_last() =~= text@.take(pos as int));
        }
        if c == sep {
            let piece = text.substring_char(start, pos);
            pieces.push(piece.to_owned());
            start = pos + 1;
            proof {
                assert(text@.subrange(start as int, pos + 1) =~= Seq::<char>::empty());
            }
        } else {
            proof {
                let before = split_on(text@.take(pos as int), sep);
                assert(text@.subrange(start as int, pos + 1) =~= before.last().push(c));
            }
        }
        pos += 1;
    }
    let piece = text.substring_char(start, pos);
    pieces.push(piece.to_owned());
    proof {
        assert(text@.take(pos as int) =~= text@);
    }
    pieces
}

/// The character that ends a line.
pub const LINE_BREAK: char = '\n';

/// Writes `lines` one per line: with a line break between neighbours and
/// none at the end.
pub fn join_lines(lines: &Vec<String>) -> (text: String)
    ensures
        text@ == join_with(lines.deep_view(), LINE_BREAK),
{
    let mut text = String::new();
    let mut i: usize = 0;
    proof {
        reveal_strlit("\n");
    }
    while i < lines.len()
        invariant
            i <= lines.len(),
            "\n"@ == seq![LINE_BREAK],
            text@ == join_with(lines.deep_view().take(i as int), LINE_BREAK),
        decreases lines.len() - i,
    {
        proof {
            let taken = lines.deep_view().take(i + 1);
            assert(taken.drop_last() =~= lines.deep_view().take(i as int));
        }
        if i > 0 {
            text.append("\n");
        }
        text.append(lines[i].as_str());
        i += 1;
    }
    proof {
        assert(lines.deep_view().take(i as int) =~= lines.deep_view());
    }
    text
}

} // verus!
