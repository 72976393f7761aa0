//! The map format: one colony per line, its name first, then one word of
//! the form `direction=Target` per outgoing edge.

use crate::graph::rows;
use vstd::prelude::*;

verus! {

/// Is `c` white space: a character with the Unicode property `White_Space`.
pub open spec fn is_space(c: char) -> bool {
    let code = c as u32;
    ||| 0x09 <= code <= 0x0d
    ||| code == 0x20
    ||| code == 0x85
    ||| code == 0xa0
    ||| code == 0x1680
    ||| 0x2000 <= code <= 0x200a
    ||| code == 0x2028
    ||| code == 0x2029
    ||| code == 0x202f
    ||| code == 0x205f
    ||| code == 0x3000
}

/// Is `c` a line feed.
pub open spec fn is_newline(c: char) -> bool {
    c == '\n'
}

/// Is `c` an equals sign.
pub open spec fn is_equals(c: char) -> bool {
    c == '='
}

/// The length of the longest prefix of `text` that holds no character on
/// which `stop` is true.
pub open spec fn run_len(text: Seq<char>, stop: spec_fn(char) -> bool) -> int
    decreases text.len(),
{
    if text.len() == 0 || stop(text[0]) {
        0
    } else {
        1 + run_len(text.drop_first(), stop)
    }
}

/// The lines of `text`: the pieces between line feeds. A line feed at the
/// very end starts no further line.
pub open spec fn lines_of(text: Seq<char>) -> Seq<Seq<char>>
    decreases text.len(),
{
    if text.len() == 0 {
        Seq::empty()
    } else {
        let end = run_len(text, |c: char| is_newline(c));
        if 0 <= end < text.len() {
            seq![text.take(end)] + lines_of(text.skip(end + 1))
        } else {
            seq![text]
        }
    }
}

/// The words of `line`: its longest pieces free of white space.
pub open spec fn words_of(line: Seq<char>) -> Seq<Seq<char>>
    decreases line.len(),
{
    if line.len() == 0 {
        Seq::empty()
    } else if is_space(line[0]) {
        words_of(line.drop_first())
    } else {
        let end = run_len(line, |c: char| is_space(c));
        if 0 < end <= line.len() {
            seq![line.take(end)] + words_of(line.skip(end))
        } else {
            Seq::empty()
        }
    }
}

/// The edge target that `word` names: what follows its equals sign, if it
/// holds exactly one.
pub open spec fn edge_target(word: Seq<char>) -> Option<Seq<char>> {
    let at = run_len(word, |c: char| is_equals(c));
    if at < word.len() && run_len(word.skip(at + 1), |c: char| is_equals(c)) == word.len() - at - 1 {
        Some(word.skip(at + 1))
    } else {
        None
    }
}

/// The edge targets that `words` name, in order; words that name none are
/// dropped.
pub open spec fn edge_targets(words: Seq<Seq<char>>) -> Seq<Seq<char>>
    decreases words.len(),
{
    if words.len() == 0 {
        Seq::empty()
    } else {
        let before = edge_targets(words.drop_last());
        match edge_target(words.last()) {
            Some(target) => before.push(target),
            None => before,
        }
    }
}

/// What one line of a map says: the name of a colony and the names of the
/// colonies that its edges lead to.
pub struct LineView {
    pub name: Seq<char>,
    pub targets: Seq<Seq<char>>,
}

/// What `line` says; nothing if it holds no word.
pub open spec fn line_of(line: Seq<char>) -> Option<LineView> {
    let words = words_of(line);
    if words.len() == 0 {
        None
    } else {
        Some(LineView { name: words[0], targets: edge_targets(words.drop_first()) })
    }
}

/// What the lines `lines` say, in order; blank lines are dropped.
pub open spec fn entries_of(lines: Seq<Seq<char>>) -> Seq<LineView>
    decreases lines.len(),
{
    if lines.len() == 0 {
        Seq::empty()
    } else {
        let before = entries_of(lines.drop_last());
        match line_of(lines.last()) {
            Some(entry) => before.push(entry),
            None => before,
        }
    }
}

/// What the map `text` says.
pub open spec fn map_of(text: Seq<char>) -> Seq<LineView> {
    entries_of(lines_of(text))
}

/// The run ends at the first character on which `stop` is true, or at the
/// end of the text.
pub proof fn lemma_run_len(text: Seq<char>, stop: spec_fn(char) -> bool, end: int)
    requires
        0 <= end <= text.len(),
        forall|i: int| 0 <= i < end ==> !stop(#[trigger] text[i]),
        end == text.len() || stop(text[end]),
    ensures
        run_len(text, stop) == end,
    decreases text.len(),
{
    if end > 0 {
        let rest = text.drop_first();
        assert forall|i: int| 0 <= i < end - 1 implies !stop(#[trigger] rest[i]) by {
            assert(rest[i] == text[i + 1]);
        }
        lemma_run_len(rest, stop, end - 1);
    }
}

/// One line of a map: the name of a colony and the names of the colonies
/// that its edges lead to.
pub struct MapLine {
    pub name: Vec<char>,
    pub targets: Vec<Vec<char>>,
}

impl View for MapLine {
    type V = LineView;

    open spec fn view(&self) -> LineView {
        LineView { name: self.name@, targets: rows(self.targets@) }
    }
}

/// The views of a vector of map lines.
pub open spec fn entries(v: Seq<MapLine>) -> Seq<LineView> {
    Seq::new(v.len(), |i: int| v[i]@)
}

/// Is `c` white space, as `char::is_whitespace` has it.
pub fn is_whitespace(c: char) -> (b: bool)
    ensures
        b == is_space(c),
{
    let code = c as u32;
    (0x09 <= code && code <= 0x0d) || code == 0x20 || code == 0x85 || code == 0xa0 || code
        == 0x1680 || (0x2000 <= code && code <= 0x200a) || code == 0x2028 || code == 0x2029 || code
        == 0x202f || code == 0x205f || code == 0x3000
}

/// A copy of `text[from..to]`.
pub fn copy_range(text: &[char], from: usize, to: usize) -> (piece: Vec<char>)
    requires
        from <= to <= text@.len(),
    ensures
        piece@ == text@.subrange(from as int, to as int),
{
    let mut piece: Vec<char> = Vec::new();
    let mut i = from;
    while i < to
        invariant
            from <= i <= to <= text@.len(),
            piece@ == text@.subrange(from as int, i as int),
        decreases to - i,
    {
        piece.push(text[i]);
        i += 1;
        assert(piece@ == text@.subrange(from as int, i as int));
    }
    piece
}

/// Splits `text` into its lines.
pub fn split_lines(text: &[char]) -> (lines: Vec<Vec<char>>)
    ensures
        rows(lines@) == lines_of(text@),
{
    let mut lines: Vec<Vec<char>> = Vec::new();
    let len = text.len();
    let mut start: usize = 0;
    proof {
        assert(text@.skip(0) == text@);
        assert(rows(lines@) + lines_of(text@) == lines_of(text@));
    }
    while start < len
        invariant
            start <= len,
            len == text@.len(),
            rows(lines@) + lines_of(text@.skip(start as int)) == lines_of(text@),
        decreases len - start,
    {
        let mut end = start;
        while end < len && text[end] != '\n'
            invariant
                start <= end <= len,
                len == text@.len(),
                forall|i: int| start <= i < end ==> !is_newline(#[trigger] text@[i]),
            decreases len - end,
        {
            end += 1;
        }
        let line = copy_range(text, start, end);
        let ghost rest = text@.skip(start as int);
        let ghost before = rows(lines@);
        proof {
            let stop = |c: char| is_newline(c);
            assert forall|i: int| 0 <= i < end - start implies !stop(#[trigger] rest[i]) by {
                assert(rest[i] == text@[start + i]);
            }
            lemma_run_len(rest, stop, end - start);
            assert(rest.take(end - start) == text@.subrange(start as int, end as int));
            if end < len {
                assert(rest.skip(end - start + 1) == text@.skip(end + 1));
            } else {
                assert(rest.take(end - start) == rest);
                assert(text@.skip(len as int) == Seq::<char>::empty());
            }
        }
        lines.push(line);
        proof {
            assert(rows(lines@) == before + seq![line@]);
        }
        start = if end < len {
            end + 1
        } else {
            len
        };
        proof {
            assert((before + seq![line@]) + lines_of(text@.skip(start as int)) == before + (
            seq![line@] + lines_of(text@.skip(start as int))));
        }
    }
    proof {
        assert(text@.skip(len as int) == Seq::<char>::empty());
        assert(rows(lines@) + Seq::<Seq<char>>::empty() == rows(lines@));
    }
    lines
}

/// Splits `line` into its words.
pub fn split_words(line: &[char]) -> (words: Vec<Vec<char>>)
    ensures
        rows(words@) == words_of(line@),
{
    let mut words: Vec<Vec<char>> = Vec::new();
    let len = line.len();
    let mut start: usize = 0;
    proof {
        assert(line@.skip(0) == line@);
        assert(rows(words@) + words_of(line@) == words_of(line@));
    }
    while start < len
        invariant
            start <= len,
            len == line@.len(),
            rows(words@) + words_of(line@.skip(start as int)) == words_of(line@),
        decreases len - start,
    {
        let ghost rest = line@.skip(start as int);
        if is_whitespace(line[start]) {
            proof {
                assert(rest.drop_first() == line@.skip(start + 1));
            }
            start += 1;
        } else {
            let mut end = start + 1;
            while end < len && !is_whitespace(line[end])
                invariant
                    start < end <= len,
                    len == line@.len(),
                    forall|i: int| start <= i < end ==> !is_space(#[trigger] line@[i]),
                decreases len - end,
            {
                end += 1;
            }
            let word = copy_range(line, start, end);
            let ghost before = rows(words@);
            proof {
                let stop = |c: char| is_space(c);
                assert forall|i: int| 0 <= i < end - start implies !stop(#[trigger] rest[i]) by {
                    assert(rest[i] == line@[start + i]);
                }
                lemma_run_len(rest, stop, end - start);
                assert(rest.take(end - start) == line@.subrange(start as int, end as int));
                assert(rest.skip(end - start) == line@.skip(end as int));
            }
            words.push(word);
            proof {
                assert(rows(words@) == before + seq![word@]);
                assert((before + seq![word@]) + words_of(line@.skip(end as int)) == before + (
                seq![word@] + words_of(line@.skip(end as int))));
            }
            start = end;
        }
    }
    proof {
        assert(line@.skip(len as int) == Seq::<char>::empty());
        assert(rows(words@) + Seq::<Seq<char>>::empty() == rows(words@));
    }
    words
}

/// The edge target that `word` names: what follows its equals sign, if it
/// holds exactly one.
pub fn parse_edge(word: &[char]) -> (target: Option<Vec<char>>)
    ensures
        match target {
            Some(name) => edge_target(word@) == Some(name@),
            None => edge_target(word@) is None,
        },
{
    let len = word.len();
    let mut at: usize = 0;
    while at < len && word[at] != '='
        invariant
            at <= len,
            len == word@.len(),
            forall|i: int| 0 <= i < at ==> !is_equals(#[trigger] word@[i]),
        decreases len - at,
    {
        at += 1;
    }
    proof {
        lemma_run_len(word@, |c: char| is_equals(c), at as int);
    }
    if at == len {
        return None;
    }
    let mut next = at + 1;
    while next < len && word[next] != '='
        invariant
            at < next <= len,
            len == word@.len(),
            forall|i: int| at < i < next ==> !is_equals(#[trigger] word@[i]),
        decreases len - next,
    {
        next += 1;
    }
    proof {
        let rest = word@.skip(at + 1);
        let stop = |c: char| is_equals(c);
        assert forall|i: int| 0 <= i < next - at - 1 implies !stop(#[trigger] rest[i]) by {
            assert(rest[i] == word@[at + 1 + i]);
        }
        if next < len {
            assert(rest[next - at - 1] == word@[next as int]);
        }
        lemma_run_len(rest, stop, next - at - 1);
    }
    if next < len {
        return None;
    }
    let name = copy_range(word, at + 1, len);
    proof {
        assert(word@.subrange(at + 1, len as int) == word@.skip(at + 1));
    }
    Some(name)
}

/// Reads one line of a map; a line without a word says nothing.
pub fn parse_line(line: &[char]) -> (entry: Option<MapLine>)
    ensures
        match entry {
            Some(found) => line_of(line@) == Some(found@),
            None => line_of(line@) is None,
        },
{
    let words = split_words(line);
    if words.len() == 0 {
        return None;
    }
    let ghost all = rows(words@);
    let ghost rest = all.drop_first();
    let name = copy_range(words[0].as_slice(), 0, words[0].len());
    let mut targets: Vec<Vec<char>> = Vec::new();
    let mut i: usize = 1;
    proof {
        assert(words@[0]@.subrange(0, words@[0]@.len() as int) == words@[0]@);
        assert(rest.take(0) == Seq::<Seq<char>>::empty());
    }
    while i < words.len()
        invariant
            1 <= i <= words@.len(),
            all == rows(words@),
            rest == all.drop_first(),
            rows(targets@) == edge_targets(rest.take(i - 1)),
        decreases words@.len() - i,
    {
        let ghost before = rows(targets@);
        proof {
            assert(rest.take(i as int).drop_last() == rest.take(i - 1));
            assert(rest.take(i as int).last() == words@[i as int]@);
        }
        match parse_edge(words[i].as_slice()) {
            Some(target) => {
                targets.push(target);
                proof {
                    assert(rows(targets@) == before.push(target@));
                }
            },
            None => {},
        }
        i += 1;
    }
    proof {
        assert(rest.take(words@.len() - 1) == rest);
    }
    Some(MapLine { name, targets })
}

/// Reads a map: one entry per line that holds a word.
pub fn parse_map(text: &[char]) -> (map: Vec<MapLine>)
    ensures
        entries(map@) == map_of(text@),
{
    let lines = split_lines(text);
    let ghost all = rows(lines@);
    let mut map: Vec<MapLine> = Vec::new();
    let mut i: usize = 0;
    proof {
        assert(all.take(0) == Seq::<Seq<char>>::empty());
    }
    while i < lines.len()
        invariant
            i <= lines@.len(),
            all == rows(lines@),
            entries(map@) == entries_of(all.take(i as int)),
        decreases lines@.len() - i,
    {
        let ghost before = entries(map@);
        proof {
            assert(all.take(i + 1).drop_last() == all.take(i as int));
            assert(all.take(i + 1).last() == lines@[i as int]@);
        }
        match parse_line(lines[i].as_slice()) {
            Some(entry) => {
                map.push(entry);
                proof {
                    assert(entries(map@) == before.push(entry@));
                }
            },
            None => {},
        }
        i += 1;
    }
    proof {
        assert(all.take(lines@.len() as int) == all);
    }
    map
}

} // verus!
