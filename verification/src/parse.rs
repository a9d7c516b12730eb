//! Response line parsing.
//!
//! The device answers in text. A reply is split into lines at line feeds;
//! the line that carries a read's payload starts with the tag `READ: ` and
//! continues with space-separated tokens, each `0x` followed by exactly two
//! hexadecimal digits, with at most one trailing space. The first tagged
//! line of a reply decides the read's result; a malformed payload is a
//! parse failure, never a partial result.

use vstd::prelude::*;

verus! {

/// The six tag bytes that open a read-result line: `READ: `.
pub open spec fn read_tag() -> Seq<u8> {
    seq![0x52u8, 0x45u8, 0x41u8, 0x44u8, 0x3Au8, 0x20u8]
}

/// The line opens with the read tag.
pub open spec fn is_read_line(s: Seq<u8>) -> bool {
    s.len() >= 6 && s.subrange(0, 6) == read_tag()
}

/// Value of one ASCII hexadecimal digit, either case.
pub open spec fn hex_digit_val(b: u8) -> Option<u8> {
    if 0x30 <= b <= 0x39 {
        Some((b - 0x30) as u8)
    } else if 0x41 <= b <= 0x46 {
        Some((b - 0x41 + 10) as u8)
    } else if 0x61 <= b <= 0x66 {
        Some((b - 0x61 + 10) as u8)
    } else {
        None
    }
}

/// Value of one payload token: `0x` followed by exactly two hexadecimal
/// digits.
pub open spec fn token_val(t: Seq<u8>) -> Option<u8> {
    if t.len() == 4 && t[0] == 0x30 && t[1] == 0x78 && hex_digit_val(t[2]) is Some
        && hex_digit_val(t[3]) is Some {
        Some((hex_digit_val(t[2])->0 * 16 + hex_digit_val(t[3])->0) as u8)
    } else {
        None
    }
}

/// Bytes of a non-empty payload: tokens separated by single spaces. Any
/// malformed token fails the whole payload.
pub open spec fn parse_tokens(s: Seq<u8>) -> Option<Seq<u8>>
    decreases s.len(),
{
    if s.len() == 4 {
        match token_val(s) {
            Some(v) => Some(seq![v]),
            None => None,
        }
    } else if s.len() >= 5 && s[4] == 0x20 {
        match (token_val(s.subrange(0, 4)), parse_tokens(s.skip(5))) {
            (Some(v), Some(rest)) => Some(seq![v] + rest),
            _ => None,
        }
    } else {
        None
    }
}

/// Payload part of a tagged line: everything after the tag, less at most
/// one trailing space.
pub open spec fn strip_body(s: Seq<u8>) -> Seq<u8> {
    let r = s.skip(6);
    if r.len() > 0 && r.last() == 0x20 {
        r.drop_last()
    } else {
        r
    }
}

/// Result of one read-result line: `None` unless the line opens with the
/// tag and the payload is well formed; the empty payload is a valid,
/// distinct result.
pub open spec fn parse_read_spec(s: Seq<u8>) -> Option<Seq<u8>> {
    if !is_read_line(s) {
        None
    } else {
        let body = strip_body(s);
        if body.len() == 0 {
            Some(Seq::empty())
        } else {
            parse_tokens(body)
        }
    }
}

/// Result of a whole reply: the parse of its first tagged line, if any.
pub open spec fn find_read_spec(lines: Seq<Seq<u8>>) -> Option<Seq<u8>>
    decreases lines.len(),
{
    if lines.len() == 0 {
        None
    } else if is_read_line(lines.first()) {
        parse_read_spec(lines.first())
    } else {
        find_read_spec(lines.drop_first())
    }
}

/// Prefixes the payload bytes already decoded onto a pending parse.
pub open spec fn with_prefix(pre: Seq<u8>, rest: Option<Seq<u8>>) -> Option<Seq<u8>> {
    match rest {
        Some(r) => Some(pre + r),
        None => None,
    }
}

/// Decodes one ASCII hexadecimal digit, either case.
pub fn hex_digit(b: u8) -> (r: Option<u8>)
    ensures
        r == hex_digit_val(b),
{
    if 0x30 <= b && b <= 0x39 {
        Some(b - 0x30)
    } else if 0x41 <= b && b <= 0x46 {
        Some(b - 0x41 + 10)
    } else if 0x61 <= b && b <= 0x66 {
        Some(b - 0x61 + 10)
    } else {
        None
    }
}

/// Tests whether a line opens with the read tag.
pub fn has_read_tag(s: &[u8]) -> (b: bool)
    ensures
        b == is_read_line(s@),
{
    let b = s.len() >= 6 && s[0] == 0x52 && s[1] == 0x45 && s[2] == 0x41 && s[3] == 0x44 && s[4]
        == 0x3A && s[5] == 0x20;
    proof {
        if s@.len() >= 6 {
            if b {
                assert(s@.subrange(0, 6) =~= read_tag());
            } else {
                assert(s@.subrange(0, 6)[0] == s@[0]);
                assert(read_tag()[0] == 0x52u8);
                if s@.subrange(0, 6) == read_tag() {
                    assert(s@[0] == 0x52 && s@[1] == 0x45 && s@[2] == 0x41 && s@[3] == 0x44
                        && s@[4] == 0x3A && s@[5] == 0x20);
                }
            }
        }
    }
    b
}

/// Decodes the payload of one response line, as the device formats it:
/// `READ: ` then space-separated `0xNN` tokens with at most one trailing
/// space. Returns the payload bytes in order, `None` on any malformation.
pub fn parse_read(s: &[u8]) -> (r: Option<Vec<u8>>)
    ensures
        r.deep_view() == parse_read_spec(s@),
{
    if !has_read_tag(s) {
        return None;
    }
    let mut end: usize = s.len();
    if end > 6 && s[end - 1] == 0x20 {
        end = end - 1;
    }
    proof {
        assert(strip_body(s@) =~= s@.subrange(6, end as int));
    }
    if end == 6 {
        let empty: Vec<u8> = Vec::new();
        proof {
            assert(Some(empty).deep_view() =~~= parse_read_spec(s@));
        }
        return Some(empty);
    }
    let mut out: Vec<u8> = Vec::new();
    let mut i: usize = 6;
    proof {
        let body = s@.subrange(6, end as int);
        match parse_tokens(body) {
            Some(rest) => {
                assert(Seq::<u8>::empty() + rest =~= rest);
            },
            None => {},
        }
    }
    while i < end
        invariant
            6 <= i <= end <= s@.len(),
            parse_read_spec(s@) == with_prefix(out@, parse_tokens(s@.subrange(i as int, end as int))),
        decreases end - i,
    {
        let ghost sub = s@.subrange(i as int, end as int);
        if end - i < 4 {
            proof {
                assert(sub.len() < 4);
            }
            return None;
        }
        let ok_prefix = s[i] == 0x30 && s[i + 1] == 0x78;
        let d_hi = hex_digit(s[i + 2]);
        let d_lo = hex_digit(s[i + 3]);
        proof {
            assert(sub.subrange(0, 4) =~= s@.subrange(i as int, i as int + 4));
            assert(sub.subrange(0, 4)[0] == s@[i as int]);
            assert(sub.subrange(0, 4)[1] == s@[i as int + 1]);
            assert(sub.subrange(0, 4)[2] == s@[i as int + 2]);
            assert(sub.subrange(0, 4)[3] == s@[i as int + 3]);
            if sub.len() == 4 {
                assert(sub =~= sub.subrange(0, 4));
            }
        }
        if !ok_prefix {
            return None;
        }
        let v: u8 = match (d_hi, d_lo) {
            (Some(h), Some(l)) => h * 16 + l,
            _ => {
                return None;
            },
        };
        proof {
            assert(token_val(sub.subrange(0, 4)) == Some(v));
        }
        if i + 4 == end {
            let ghost prev = out@;
            out.push(v);
            proof {
                assert(parse_tokens(sub) == Some(seq![v]));
                assert(prev + seq![v] =~= out@);
                assert(Some(out).deep_view() =~~= Some(prev + seq![v]));
            }
            return Some(out);
        }
        if s[i + 4] != 0x20 {
            proof {
                assert(sub.len() != 4 && sub[4] == s@[i as int + 4]);
            }
            return None;
        }
        let ghost prev = out@;
        out.push(v);
        proof {
            let subn = s@.subrange(i as int + 5, end as int);
            assert(sub[4] == s@[i as int + 4]);
            assert(sub.skip(5) =~= subn);
            match parse_tokens(subn) {
                Some(rest) => {
                    assert(parse_tokens(sub) == Some(seq![v] + rest));
                    assert(prev + (seq![v] + rest) =~= out@ + rest);
                },
                None => {
                    assert(parse_tokens(sub) is None);
                },
            }
        }
        i = i + 5;
    }
    proof {
        assert(parse_tokens(s@.subrange(i as int, end as int)) is None);
    }
    None
}

/// Scans a reply's lines in order and decodes the payload of the first
/// tagged line; earlier and later lines are echoes or status text and are
/// ignored. `None` when no line is tagged, or the first tagged line is
/// malformed.
pub fn find_parse_read(lines: &[Vec<u8>]) -> (r: Option<Vec<u8>>)
    ensures
        r.deep_view() == find_read_spec(lines.deep_view()),
{
    let mut j: usize = 0;
    proof {
        assert(lines.deep_view().skip(0) =~~= lines.deep_view());
    }
    while j < lines.len()
        invariant
            j <= lines@.len(),
            find_read_spec(lines.deep_view()) == find_read_spec(lines.deep_view().skip(j as int)),
        decreases lines@.len() - j,
    {
        proof {
            assert(lines.deep_view().skip(j as int).first() =~= lines@[j as int]@);
        }
        if has_read_tag(lines[j].as_slice()) {
            return parse_read(lines[j].as_slice());
        }
        proof {
            assert(lines.deep_view().skip(j as int).drop_first() =~= lines.deep_view().skip(
                j as int + 1,
            ));
        }
        j = j + 1;
    }
    proof {
        assert(lines.deep_view().skip(j as int).len() == 0);
    }
    None
}

/// Index of the first line feed in `s`, or `s.len()` when there is none.
pub open spec fn first_nl(s: Seq<u8>) -> int
    decreases s.len(),
{
    if s.len() == 0 {
        0
    } else if s.first() == 0x0A {
        0
    } else {
        1 + first_nl(s.drop_first())
    }
}

/// A finished line: one carriage return before the line feed is part of
/// the terminator and is dropped.
pub open spec fn strip_cr(s: Seq<u8>) -> Seq<u8> {
    if s.len() > 0 && s.last() == 0x0D {
        s.drop_last()
    } else {
        s
    }
}

/// The reply split into lines at line feeds, terminators dropped; a final
/// line feed closes the last line rather than opening an empty one, and a
/// last line left open keeps its bytes as they are.
pub open spec fn split_lines_spec(s: Seq<u8>) -> Seq<Seq<u8>>
    decreases s.len(),
{
    if s.len() == 0 {
        Seq::empty()
    } else {
        let n = first_nl(s);
        if 0 <= n && n < s.len() {
            seq![strip_cr(s.take(n))] + split_lines_spec(s.skip(n + 1))
        } else {
            seq![s]
        }
    }
}

/// `first_nl` points at the first line feed: none lies before it, and it
/// is only out of range when the whole of `s` is free of line feeds.
pub proof fn lemma_first_nl_at(s: Seq<u8>, n: int)
    requires
        0 <= n <= s.len(),
        forall|i: int| 0 <= i < n ==> s[i] != 0x0A,
        n < s.len() ==> s[n] == 0x0A,
    ensures
        first_nl(s) == n,
    decreases n, s.len(),
{
    if s.len() > 0 && s.first() != 0x0A {
        let rest = s.drop_first();
        assert forall|i: int| 0 <= i < n - 1 implies rest[i] != 0x0A by {
            assert(rest[i] == s[i + 1]);
        }
        lemma_first_nl_at(rest, n - 1);
    }
}

/// Splits a reply's bytes into its lines, as the parser expects them: cut
/// at each line feed, one carriage return before the cut dropped, and no
/// empty line after a final line feed.
pub fn split_lines(buf: &[u8]) -> (lines: Vec<Vec<u8>>)
    ensures
        lines.deep_view() == split_lines_spec(buf@),
{
    let n: usize = buf.len();
    let mut lines: Vec<Vec<u8>> = Vec::new();
    let mut start: usize = 0;
    let mut i: usize = 0;
    proof {
        assert(buf@.skip(0) =~= buf@);
        assert(lines.deep_view() =~~= Seq::<Seq<u8>>::empty());
        assert(Seq::<Seq<u8>>::empty() + split_lines_spec(buf@) =~= split_lines_spec(buf@));
    }
    while i < n
        invariant
            n == buf@.len(),
            start <= i <= n,
            forall|k: int| start <= k < i ==> buf@[k] != 0x0A,
            split_lines_spec(buf@) == lines.deep_view() + split_lines_spec(
                buf@.skip(start as int),
            ),
        decreases n - i,
    {
        if buf[i] == 0x0A {
            let mut endl: usize = i;
            if endl > start && buf[endl - 1] == 0x0D {
                endl = endl - 1;
            }
            let line = vstd::slice::slice_to_vec(vstd::slice::slice_subrange(buf, start, endl));
            let ghost lv = line@;
            let ghost prev = lines.deep_view();
            lines.push(line);
            proof {
                let tail = buf@.skip(start as int);
                assert forall|k: int| 0 <= k < i - start implies tail[k] != 0x0A by {
                    assert(tail[k] == buf@[start + k]);
                }
                assert(tail[i - start as int] == buf@[i as int]);
                lemma_first_nl_at(tail, i - start as int);
                assert(tail.take(i - start as int) =~= buf@.subrange(start as int, i as int));
                assert(lv =~= strip_cr(tail.take(i - start as int)));
                assert(tail.skip(i - start as int + 1) =~= buf@.skip(i as int + 1));
                assert(lines.deep_view() =~~= prev.push(lv));
                assert(prev + split_lines_spec(tail) =~~= lines.deep_view() + split_lines_spec(
                    buf@.skip(i as int + 1),
                ));
            }
            start = i + 1;
        }
        i = i + 1;
    }
    if start < n {
        let line = vstd::slice::slice_to_vec(vstd::slice::slice_subrange(buf, start, n));
        let ghost lv = line@;
        let ghost prev = lines.deep_view();
        lines.push(line);
        proof {
            let tail = buf@.skip(start as int);
            assert forall|k: int| 0 <= k < tail.len() implies tail[k] != 0x0A by {
                assert(tail[k] == buf@[start + k]);
            }
            lemma_first_nl_at(tail, tail.len() as int);
            assert(lv =~= tail);
            assert(lines.deep_view() =~~= prev.push(lv));
            assert(prev + split_lines_spec(tail) =~~= lines.deep_view());
            assert(lines.deep_view() =~~= split_lines_spec(buf@));
        }
    } else {
        proof {
            assert(buf@.skip(start as int).len() == 0);
            assert(lines.deep_view() + split_lines_spec(buf@.skip(start as int))
                =~~= lines.deep_view());
        }
    }
    lines
}

/// Among a reply's lines, the first tagged one decides the result: lines
/// before it are not tagged, lines after it do not matter.
pub proof fn lemma_find_first_tagged(lines: Seq<Seq<u8>>, i: int)
    requires
        0 <= i < lines.len(),
        is_read_line(lines[i]),
        forall|j: int| 0 <= j < i ==> !is_read_line(lines[j]),
    ensures
        find_read_spec(lines) == parse_read_spec(lines[i]),
    decreases i,
{
    if i > 0 {
        let rest = lines.drop_first();
        assert forall|j: int| 0 <= j < i - 1 implies !is_read_line(rest[j]) by {
            assert(rest[j] == lines[j + 1]);
        }
        lemma_find_first_tagged(rest, i - 1);
    }
}

/// A reply without any tagged line yields no result.
pub proof fn lemma_find_none(lines: Seq<Seq<u8>>)
    requires
        forall|j: int| 0 <= j < lines.len() ==> !is_read_line(lines[j]),
    ensures
        find_read_spec(lines) is None,
    decreases lines.len(),
{
    if lines.len() > 0 {
        let rest = lines.drop_first();
        assert forall|j: int| 0 <= j < rest.len() implies !is_read_line(rest[j]) by {
            assert(rest[j] == lines[j + 1]);
        }
        lemma_find_none(rest);
    }
}

} // verus!
