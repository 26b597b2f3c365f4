//! Where the running program was loaded, read from a list of its mappings.
use vstd::prelude::*;
use crate::order;
use crate::text;
use crate::text::{chars_of, parse_number, push_utf8, trim, white};

verus! {

/// What ends a piece of text.
#[derive(Clone, Copy, PartialEq, Eq, Structural)]
pub enum Mark {
    NewLine,
    White,
    Dash,
}

pub open spec fn is_mark(mark: Mark, c: char) -> bool {
    match mark {
        Mark::NewLine => c == '\n',
        Mark::White => text::is_white(c),
        Mark::Dash => c == '-',
    }
}

/// The number of characters before the first mark, or all of them.
pub open spec fn span(s: Seq<char>, mark: Mark) -> nat
    decreases s.len(),
{
    if s.len() == 0 || is_mark(mark, s[0]) {
        0
    } else {
        1 + span(s.skip(1), mark)
    }
}

/// The lines of a text. A line ends at a line feed; a carriage return before
/// it belongs to the line end. Text after the last line end is a line too.
pub open spec fn lines_of(s: Seq<char>) -> Seq<Seq<char>>
    decreases s.len(),
{
    let n = span(s, Mark::NewLine) as int;
    if s.len() == 0 {
        Seq::empty()
    } else if n >= s.len() {
        seq![s]
    } else {
        seq![without_return(s.take(n))] + lines_of(s.skip(n + 1))
    }
}

/// A line without the carriage return that may end it.
pub open spec fn without_return(line: Seq<char>) -> Seq<char> {
    if line.len() > 0 && line.last() == '\r' {
        line.drop_last()
    } else {
        line
    }
}

/// A line in at most `n` fields. Each white-space character separates two
/// fields, and the last field holds all that is left.
pub open spec fn fields_of(s: Seq<char>, n: nat) -> Seq<Seq<char>>
    decreases n,
{
    let k = span(s, Mark::White) as int;
    if n <= 1 || k >= s.len() {
        seq![s]
    } else {
        seq![s.take(k)] + fields_of(s.skip(k + 1), (n - 1) as nat)
    }
}

/// The path of a mapping: the sixth field, without white space around it.
pub open spec fn path_of(fields: Seq<Seq<char>>) -> Seq<char> {
    if fields.len() > 5 {
        text::trimmed(fields[5])
    } else {
        Seq::empty()
    }
}

/// The address where a mapping starts: the first field up to a dash, in
/// hexadecimal digits.
pub open spec fn start_of(fields: Seq<Seq<char>>) -> Option<nat> {
    text::parsed_number(fields[0].take(span(fields[0], Mark::Dash) as int), 16)
}

/// The start of the first mapping whose path is that of the program. A line
/// with fewer than five fields before it ends the search.
pub open spec fn load_base(lines: Seq<Seq<char>>, exe_path: Seq<u8>) -> Option<nat>
    decreases lines.len(),
{
    if lines.len() == 0 {
        None
    } else {
        let fields = fields_of(lines[0], 6);
        let path = path_of(fields);
        if fields.len() < 5 {
            None
        } else if path.len() > 0 && vstd::utf8::encode_utf8(path) == exe_path {
            start_of(fields)
        } else {
            load_base(lines.skip(1), exe_path)
        }
    }
}

fn marked(mark: Mark, c: char) -> (b: bool)
    ensures
        b == is_mark(mark, c),
{
    match mark {
        Mark::NewLine => c == '\n',
        Mark::White => white(c),
        Mark::Dash => c == '-',
    }
}

/// The place of the first mark from `from` on, or the end.
fn find_mark(s: &Vec<char>, from: usize, mark: Mark) -> (at: usize)
    requires
        from <= s.len(),
    ensures
        from <= at <= s.len(),
        at - from == span(s@.skip(from as int), mark),
{
    let mut at: usize = from;
    while at < s.len() && !marked(mark, s[at])
        invariant
            from <= at <= s.len(),
            span(s@.skip(from as int), mark) == at - from + span(s@.skip(at as int), mark),
        decreases s.len() - at,
    {
        assert(s@.skip(at as int).skip(1) =~= s@.skip(at + 1));
        at = at + 1;
    }
    at
}

fn copy_range(s: &Vec<char>, from: usize, to: usize) -> (part: Vec<char>)
    requires
        from <= to <= s.len(),
    ensures
        part@ == s@.subrange(from as int, to as int),
{
    let mut part: Vec<char> = Vec::new();
    for i in from..to
        invariant
            from <= to <= s.len(),
            part@ == s@.subrange(from as int, i as int),
    {
        part.push(s[i]);
        assert(s@.subrange(from as int, i + 1) =~= s@.subrange(from as int, i as int).push(
            s@[i as int],
        ));
    }
    part
}

fn lines(s: &Vec<char>) -> (found: Vec<Vec<char>>)
    ensures
        order::models(found@) == lines_of(s@),
{
    let mut found: Vec<Vec<char>> = Vec::new();
    let mut pos: usize = 0;
    assert(s@.skip(0) =~= s@);
    assert(order::models(found@) + lines_of(s@) =~= lines_of(s@));
    while pos < s.len()
        invariant
            pos <= s.len(),
            order::models(found@) + lines_of(s@.skip(pos as int)) == lines_of(s@),
        decreases s.len() - pos,
    {
        let ghost had = order::models(found@);
        let ghost rest = s@.skip(pos as int);
        let end: usize = find_mark(s, pos, Mark::NewLine);
        if end == s.len() {
            let last = copy_range(s, pos, end);
            assert(last@ =~= rest);
            found.push(last);
            proof {
                assert(order::models(found@) =~= had.push(rest));
                assert(had + seq![rest] =~= had.push(rest));
                assert(s@.skip(end as int) =~= Seq::empty());
                assert(order::models(found@) + lines_of(s@.skip(end as int)) =~= order::models(found@));
            }
            pos = end;
        } else {
            let stop: usize = if end > pos && s[end - 1] == '\r' {
                end - 1
            } else {
                end
            };
            let line = copy_range(s, pos, stop);
            let ghost n = (end - pos) as int;
            assert(rest.take(n) =~= s@.subrange(pos as int, end as int));
            assert(line@ =~= without_return(rest.take(n)));
            found.push(line);
            proof {
                assert(rest.skip(n + 1) =~= s@.skip(end + 1));
                assert(order::models(found@) =~= had.push(line@));
                assert(had.push(line@) + lines_of(s@.skip(end + 1)) =~= had + (seq![line@] + lines_of(
                    s@.skip(end + 1),
                )));
            }
            pos = end + 1;
        }
    }
    assert(s@.skip(s@.len() as int) =~= Seq::empty());
    assert(order::models(found@) + lines_of(Seq::empty()) =~= order::models(found@));
    found
}

fn fields(s: &Vec<char>, n: usize) -> (found: Vec<Vec<char>>)
    requires
        n >= 1,
    ensures
        order::models(found@) == fields_of(s@, n as nat),
{
    let mut found: Vec<Vec<char>> = Vec::new();
    let mut pos: usize = 0;
    let mut left: usize = n;
    assert(s@.skip(0) =~= s@);
    assert(order::models(found@) + fields_of(s@, n as nat) =~= fields_of(s@, n as nat));
    while left > 1
        invariant
            1 <= left <= n,
            pos <= s.len(),
            order::models(found@) + fields_of(s@.skip(pos as int), left as nat) == fields_of(
                s@,
                n as nat,
            ),
        decreases left,
    {
        let ghost had = order::models(found@);
        let ghost rest = s@.skip(pos as int);
        let end: usize = find_mark(s, pos, Mark::White);
        if end == s.len() {
            assert(fields_of(rest, left as nat) =~= fields_of(rest, 1));
            left = 1;
        } else {
            let field = copy_range(s, pos, end);
            let ghost n = (end - pos) as int;
            assert(field@ =~= rest.take(n));
            found.push(field);
            proof {
                assert(rest.skip(n + 1) =~= s@.skip(end + 1));
                assert(order::models(found@) =~= had.push(field@));
                let tail = fields_of(s@.skip(end + 1), (left - 1) as nat);
                assert(had.push(field@) + tail =~= had + (seq![field@] + tail));
            }
            pos = end + 1;
            left = left - 1;
        }
    }
    let ghost had = order::models(found@);
    let last = copy_range(s, pos, s.len());
    assert(last@ =~= s@.skip(pos as int));
    found.push(last);
    assert(order::models(found@) =~= had + seq![last@]);
    found
}

fn same_bytes(a: &Vec<u8>, b: &[u8]) -> (same: bool)
    ensures
        same == (a@ == b@),
{
    if a.len() != b.len() {
        return false;
    }
    for i in 0..a.len()
        invariant
            a.len() == b.len(),
            forall|j: int| 0 <= j < i ==> a@[j] == b@[j],
    {
        if a[i] != b[i] {
            return false;
        }
    }
    assert(a@ =~= b@);
    true
}

/// The address where the program at `exe_path` was loaded, read from the text
/// of `/proc/self/maps`: one mapping per line, with the fields
/// `<start>-<end> <perms> <offset> <dev> <inode> [pathname]`.
pub fn find_load_base(maps: &str, exe_path: &[u8]) -> (base: Option<usize>)
    ensures
        match base {
            Some(b) => load_base(lines_of(maps@), exe_path@) == Some(b as nat),
            None => load_base(lines_of(maps@), exe_path@) is None,
        },
{
    let chars = chars_of(maps);
    let rows = lines(&chars);
    let ghost all = lines_of(maps@);
    assert(all.skip(0) =~= all);
    let mut i: usize = 0;
    while i < rows.len()
        invariant
            all == lines_of(maps@),
            all == order::models(rows@),
            i <= rows.len(),
            load_base(all, exe_path@) == load_base(all.skip(i as int), exe_path@),
        decreases rows.len() - i,
    {
        let parts = fields(&rows[i], 6);
        let ghost seqs = fields_of(rows[i as int]@, 6);
        assert(all.skip(i as int)[0] == rows[i as int]@);
        assert(all.skip(i as int).skip(1) =~= all.skip(i + 1));
        if parts.len() < 5 {
            return None;
        }
        if parts.len() > 5 {
            let path = trim(&parts[5]);
            assert(seqs[5] == parts[5]@);
            let mut bytes: Vec<u8> = Vec::new();
            push_utf8(&mut bytes, &path);
            assert(bytes@ =~= vstd::utf8::encode_utf8(path@));
            if path.len() > 0 && same_bytes(&bytes, exe_path) {
                let range = &parts[0];
                assert(seqs[0] == range@);
                assert(range@.skip(0) =~= range@);
                let dash: usize = find_mark(range, 0, Mark::Dash);
                let start = copy_range(range, 0, dash);
                assert(start@ =~= range@.take(dash as int));
                return parse_number(&start, 16);
            }
        }
        i = i + 1;
    }
    None
}

/// No character of the text is a mark.
pub open spec fn unmarked(s: Seq<char>, mark: Mark) -> bool {
    forall|i: int| 0 <= i < s.len() ==> !is_mark(mark, #[trigger] s[i])
}

proof fn span_stops_at_the_first_mark(a: Seq<char>, c: char, b: Seq<char>, mark: Mark)
    requires
        unmarked(a, mark),
        is_mark(mark, c),
    ensures
        span(a + seq![c] + b, mark) == a.len(),
    decreases a.len(),
{
    let s = a + seq![c] + b;
    if a.len() > 0 {
        assert(s[0] == a[0]);
        let rest = a.skip(1);
        assert forall|i: int| 0 <= i < rest.len() implies !is_mark(mark, #[trigger] rest[i]) by {
            assert(rest[i] == a[i + 1]);
        }
        assert(s.skip(1) =~= rest + seq![c] + b);
        span_stops_at_the_first_mark(rest, c, b, mark);
    } else {
        assert(s[0] == c);
    }
}

proof fn span_of_unmarked(a: Seq<char>, mark: Mark)
    requires
        unmarked(a, mark),
    ensures
        span(a, mark) == a.len(),
    decreases a.len(),
{
    if a.len() > 0 {
        assert(!is_mark(mark, a[0]));
        let rest = a.skip(1);
        assert forall|i: int| 0 <= i < rest.len() implies !is_mark(mark, #[trigger] rest[i]) by {
            assert(rest[i] == a[i + 1]);
        }
        span_of_unmarked(rest, mark);
    }
}

/// Text up to a line feed is one line, without a carriage return at its end;
/// the lines of what follows come after it. Text without a line feed is one
/// line unless it is empty.
pub proof fn lines_end_at_line_feeds(a: Seq<char>, b: Seq<char>)
    requires
        forall|i: int| 0 <= i < a.len() ==> #[trigger] a[i] != '\n',
    ensures
        a.len() > 0 && a[a.len() - 1] == '\r' ==> lines_of(a + seq!['\n'] + b) == seq![
            a.take(a.len() - 1),
        ] + lines_of(b),
        a.len() == 0 || a[a.len() - 1] != '\r' ==> lines_of(a + seq!['\n'] + b) == seq![a] + lines_of(b),
        a.len() > 0 ==> lines_of(a) == seq![a],
        lines_of(Seq::empty()) == Seq::<Seq<char>>::empty(),
{
    let s = a + seq!['\n'] + b;
    assert(unmarked(a, Mark::NewLine));
    span_stops_at_the_first_mark(a, '\n', b, Mark::NewLine);
    span_of_unmarked(a, Mark::NewLine);
    assert(s.take(a.len() as int) =~= a);
    assert(s.skip((a.len() + 1) as int) =~= b);
    if a.len() > 0 {
        assert(a.drop_last() =~= a.take(a.len() - 1));
    }
}

/// Each white-space character separates two fields, and the last field allowed
/// holds all that is left.
pub proof fn fields_end_at_white_space(a: Seq<char>, c: char, b: Seq<char>, n: nat)
    requires
        forall|i: int| 0 <= i < a.len() ==> !text::is_white(#[trigger] a[i]),
        text::is_white(c),
    ensures
        n > 1 ==> fields_of(a + seq![c] + b, n) == seq![a] + fields_of(b, (n - 1) as nat),
        fields_of(a, n) == seq![a],
        fields_of(b, 1) == seq![b],
{
    let s = a + seq![c] + b;
    assert(unmarked(a, Mark::White));
    span_stops_at_the_first_mark(a, c, b, Mark::White);
    span_of_unmarked(a, Mark::White);
    assert(s.take(a.len() as int) =~= a);
    assert(s.skip((a.len() + 1) as int) =~= b);
}

/// A mapping starts at the number that its first field writes in hexadecimal
/// digits before a dash, and belongs to the path that is its sixth field,
/// white space around it left out.
pub proof fn mappings_have_start_and_path(
    start: Seq<char>,
    end: Seq<char>,
    fields: Seq<Seq<char>>,
)
    requires
        fields.len() > 0,
        fields[0] == start + seq!['-'] + end,
        forall|i: int| 0 <= i < start.len() ==> #[trigger] start[i] != '-',
    ensures
        start_of(fields) == text::parsed_number(start, 16),
        forall|n: nat| n < text::hex_span(16) && start == #[trigger] text::hex_digits(n, 16) && n
            <= usize::MAX ==> start_of(fields) == Some(n),
        fields.len() >= 6 ==> path_of(fields) == text::trimmed(fields[5]),
        fields.len() < 6 ==> path_of(fields).len() == 0,
{
    assert(unmarked(start, Mark::Dash));
    span_stops_at_the_first_mark(start, '-', end, Mark::Dash);
    assert(fields[0].take(start.len() as int) =~= start);
    assert forall|n: nat| n < text::hex_span(16) && start == #[trigger] text::hex_digits(n, 16) && n
        <= usize::MAX implies start_of(fields) == Some(n) by {
        text::hex_digits_read_back(n, 16);
        assert(text::digit_value(start[0], 16) is Some);
    }
}

/// The line is a mapping of another file, or of none: it has the five fields
/// that every mapping has, and its path is not the given one.
pub open spec fn maps_other(line: Seq<char>, exe_path: Seq<u8>) -> bool {
    let fields = fields_of(line, 6);
    &&& fields.len() >= 5
    &&& path_of(fields).len() == 0 || vstd::utf8::encode_utf8(path_of(fields)) != exe_path
}

/// The line is a mapping of the file at the given path.
pub open spec fn maps_path(line: Seq<char>, exe_path: Seq<u8>) -> bool {
    let fields = fields_of(line, 6);
    &&& fields.len() >= 6
    &&& path_of(fields).len() > 0
    &&& vstd::utf8::encode_utf8(path_of(fields)) == exe_path
}

/// The first mapping of the program decides: mappings of other files before it
/// are passed over, and nothing after it matters. Without a mapping of the
/// program, and behind a line that is no mapping, nothing is found.
pub proof fn the_first_mapping_decides(
    maps: &str,
    exe_path: &[u8],
    base: Option<usize>,
    before: Seq<Seq<char>>,
    line: Seq<char>,
    after: Seq<Seq<char>>,
)
    requires
        call_ensures(find_load_base, (maps, exe_path), base),
        forall|i: int| 0 <= i < before.len() ==> maps_other(#[trigger] before[i], exe_path@),
    ensures
        lines_of(maps@) == before + seq![line] + after && maps_path(line, exe_path@) ==> match start_of(
            fields_of(line, 6),
        ) {
            Some(n) => base is Some && base->0 == n,
            None => base is None,
        },
        lines_of(maps@) == before + seq![line] + after && fields_of(line, 6).len() < 5 ==> base is None,
        lines_of(maps@) == before ==> base is None,
{
    let all = before + seq![line] + after;
    others_are_passed_over(before, seq![line] + after, exe_path@);
    others_are_passed_over(before, Seq::empty(), exe_path@);
    assert(before + (seq![line] + after) =~= all);
    assert(before + Seq::<Seq<char>>::empty() =~= before);
    assert((seq![line] + after)[0] == line);
}

proof fn others_are_passed_over(before: Seq<Seq<char>>, rest: Seq<Seq<char>>, exe_path: Seq<u8>)
    requires
        forall|i: int| 0 <= i < before.len() ==> maps_other(#[trigger] before[i], exe_path),
    ensures
        load_base(before + rest, exe_path) == load_base(rest, exe_path),
    decreases before.len(),
{
    let all = before + rest;
    if before.len() > 0 {
        let fewer = before.skip(1);
        assert forall|i: int| 0 <= i < fewer.len() implies maps_other(#[trigger] fewer[i], exe_path) by {
            assert(fewer[i] == before[i + 1]);
        }
        others_are_passed_over(fewer, rest, exe_path);
        assert(maps_other(before[0], exe_path));
        assert(all[0] == before[0]);
        assert(all.skip(1) =~= fewer + rest);
    } else {
        assert(all =~= rest);
    }
}

} // verus!
