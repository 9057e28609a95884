use vstd::prelude::*;

use crate::date::{is_stamp_byte, lemma_stamp_bytes, stamp_of, CalendarDate};

verus! {

/// The byte `\n`.
pub const NEWLINE: u8 = 10;

/// The byte `\r`.
pub const CARRIAGE_RETURN: u8 = 13;

/// The byte `-`, of which the separator line is made.
pub const DASH: u8 = 45;

/// How many dashes the separator line holds.
pub const SEPARATOR_LEN: usize = 10;

/// How many blank lines a clearing rewrite puts after the separator.
pub const CLEAR_LINES: usize = 50;

/// How many blank lines a plain rewrite puts after the separator.
pub const PLAIN_LINES: usize = 2;

/// The separator line, without its newline: `----------`.
pub open spec fn separator() -> Seq<u8> {
    Seq::new(SEPARATOR_LEN as nat, |i: int| DASH)
}

/// `n` newlines, that is `n` blank lines.
pub open spec fn newlines(n: nat) -> Seq<u8> {
    Seq::new(n, |i: int| NEWLINE)
}

/// The number of bytes before the first newline of `s` (all of `s` if it has none).
pub open spec fn line_len(s: Seq<u8>) -> nat
    decreases s.len(),
{
    if s.len() == 0 || s[0] == NEWLINE {
        0
    } else {
        1 + line_len(s.drop_first())
    }
}

/// The first line of `s` as `str::lines` yields it: the bytes before the first
/// newline, less one carriage return that stands right before that newline.
pub open spec fn first_line(s: Seq<u8>) -> Seq<u8> {
    let n = line_len(s) as int;
    if n < s.len() && n > 0 && s[n - 1] == CARRIAGE_RETURN {
        s.take(n - 1)
    } else {
        s.take(n)
    }
}

/// What follows the first newline of `s` (nothing if it has none).
pub open spec fn after_first_line(s: Seq<u8>) -> Seq<u8> {
    let n = line_len(s) as int;
    if n < s.len() {
        s.skip(n + 1)
    } else {
        Seq::empty()
    }
}

/// `header`, the separator line, `pad` blank lines, then `body`.
pub open spec fn framed(header: Seq<u8>, pad: nat, body: Seq<u8>) -> Seq<u8> {
    header + seq![NEWLINE] + separator() + seq![NEWLINE] + newlines(pad) + body
}

/// The content already starts with today's header.
pub open spec fn is_stamped(data: Seq<u8>, today: Seq<u8>) -> bool {
    today.is_prefix_of(data)
}

/// Where a clearing rewrite of stamped content takes up the old content: right
/// after the first line and the twelve bytes that a header line's newline, the
/// separator and its newline take.
pub open spec fn body_start(data: Seq<u8>) -> int {
    first_line(data).len() + SEPARATOR_LEN + 2
}

/// The header that a rewrite writes: the content's own first line where it is
/// already stamped, else today's header.
pub open spec fn header_of(data: Seq<u8>, today: Seq<u8>) -> Seq<u8> {
    if is_stamped(data, today) {
        first_line(data)
    } else {
        today
    }
}

/// The old content that a clearing rewrite keeps after the blank lines.
pub open spec fn cleared_body(data: Seq<u8>, today: Seq<u8>) -> Seq<u8> {
    if is_stamped(data, today) {
        data.skip(body_start(data))
    } else {
        data
    }
}

/// The inputs on which the rewrite is defined: a first line can be read where
/// the content starts with `today`, and where it clears stamped content, the
/// content reaches past the place where its body is taken up.
pub open spec fn rewrite_admits(data: Seq<u8>, today: Seq<u8>, clear: bool) -> bool {
    &&& data.len() > 0 || today.len() > 0
    &&& (clear && is_stamped(data, today)) ==> body_start(data) <= data.len()
}

/// The new content of a notes file with content `data` on the day whose header
/// is `today`, or `None` where the file is to be left as it is.
pub open spec fn rewritten(data: Seq<u8>, today: Seq<u8>, clear: bool) -> Option<Seq<u8>> {
    if clear {
        Some(framed(header_of(data, today), CLEAR_LINES as nat, cleared_body(data, today)))
    } else if !is_stamped(data, today) {
        Some(framed(today, PLAIN_LINES as nat, data))
    } else {
        None
    }
}

/// The content of the notes file after a rewrite.
pub open spec fn content_after(data: Seq<u8>, today: Seq<u8>, clear: bool) -> Seq<u8> {
    match rewritten(data, today, clear) {
        Some(c) => c,
        None => data,
    }
}

/// `line_len` is the place of the first newline.
proof fn lemma_line_len(s: Seq<u8>, i: int)
    requires
        0 <= i <= s.len(),
        forall|j: int| 0 <= j < i ==> s[j] != NEWLINE,
        i == s.len() || s[i] == NEWLINE,
    ensures
        line_len(s) == i,
    decreases i,
{
    if i > 0 {
        lemma_line_len(s.drop_first(), i - 1);
    }
}

/// The length of the first line of `data`, as `first_line` gives it.
fn first_line_len(data: &[u8]) -> (r: usize)
    ensures
        r <= data@.len(),
        first_line(data@) == data@.take(r as int),
{
    let mut i: usize = 0;
    while i < data.len() && data[i] != NEWLINE
        invariant
            i <= data@.len(),
            forall|j: int| 0 <= j < i ==> data@[j] != NEWLINE,
        decreases data@.len() - i,
    {
        i = i + 1;
    }
    proof {
        lemma_line_len(data@, i as int);
    }
    if i < data.len() && i > 0 && data[i - 1] == CARRIAGE_RETURN {
        i - 1
    } else {
        i
    }
}

/// Whether `data` starts with `today`.
fn starts_with(data: &[u8], today: &[u8]) -> (r: bool)
    ensures
        r == is_stamped(data@, today@),
{
    if today.len() > data.len() {
        return false;
    }
    let mut i: usize = 0;
    while i < today.len()
        invariant
            today@.len() <= data@.len(),
            i <= today@.len(),
            forall|j: int| 0 <= j < i ==> data@[j] == today@[j],
        decreases today@.len() - i,
    {
        if data[i] != today[i] {
            assert(data@.subrange(0, today@.len() as int)[i as int] != today@[i as int]);
            return false;
        }
        i = i + 1;
    }
    assert(today@ =~= data@.subrange(0, today@.len() as int));
    true
}

/// Whether `new_content` is defined on these inputs (see `rewrite_admits`).
pub fn rewrite_admitted(data: &[u8], today: &[u8], clear: bool) -> (r: bool)
    ensures
        r == rewrite_admits(data@, today@, clear),
{
    if data.len() == 0 && today.len() == 0 {
        return false;
    }
    if clear && starts_with(data, today) {
        let n = first_line_len(data);
        n <= data.len() && data.len() - n >= SEPARATOR_LEN + 2
    } else {
        true
    }
}

/// Appends `src[lo..hi]` to `out`.
fn append_range(out: &mut Vec<u8>, src: &[u8], lo: usize, hi: usize)
    requires
        lo <= hi <= src@.len(),
    ensures
        final(out)@ == old(out)@ + src@.subrange(lo as int, hi as int),
{
    let mut i: usize = lo;
    while i < hi
        invariant
            lo <= i <= hi <= src@.len(),
            out@ == old(out)@ + src@.subrange(lo as int, i as int),
        decreases hi - i,
    {
        out.push(src[i]);
        assert(src@.subrange(lo as int, i + 1) =~= src@.subrange(lo as int, i as int).push(
            src@[i as int],
        ));
        i = i + 1;
    }
}

/// Appends `n` copies of `b` to `out`.
fn append_repeat(out: &mut Vec<u8>, b: u8, n: usize)
    ensures
        final(out)@ == old(out)@ + Seq::new(n as nat, |i: int| b),
{
    let mut i: usize = 0;
    while i < n
        invariant
            i <= n,
            out@ == old(out)@ + Seq::new(i as nat, |k: int| b),
        decreases n - i,
    {
        out.push(b);
        assert(Seq::new((i + 1) as nat, |k: int| b) =~= Seq::new(i as nat, |k: int| b).push(b));
        i = i + 1;
    }
}

/// Builds `framed(src[h_lo..h_hi], pad, body[b_lo..])`.
fn build_framed(
    header: &[u8],
    h_lo: usize,
    h_hi: usize,
    pad: usize,
    body: &[u8],
    b_lo: usize,
) -> (r: Vec<u8>)
    requires
        h_lo <= h_hi <= header@.len(),
        b_lo <= body@.len(),
    ensures
        r@ == framed(
            header@.subrange(h_lo as int, h_hi as int),
            pad as nat,
            body@.skip(b_lo as int),
        ),
{
    let mut out: Vec<u8> = Vec::new();
    append_range(&mut out, header, h_lo, h_hi);
    out.push(NEWLINE);
    append_repeat(&mut out, DASH, SEPARATOR_LEN);
    out.push(NEWLINE);
    append_repeat(&mut out, NEWLINE, pad);
    append_range(&mut out, body, b_lo, body.len());
    assert(body@.subrange(b_lo as int, body@.len() as int) =~= body@.skip(b_lo as int));
    assert(out@ =~= framed(
        header@.subrange(h_lo as int, h_hi as int),
        pad as nat,
        body@.skip(b_lo as int),
    ));
    out
}

/// The new content of a notes file whose content is `data`, on the day whose
/// header is `today`; `None` where the file is to be left as it is.
///
/// Content that does not start with `today` gets today's header and the
/// separator line in front of it, then two blank lines, or fifty where `clear`
/// is set. Content that does start with `today` is left alone unless `clear`
/// is set; then its first line stays, the separator follows, then fifty blank
/// lines, then the content from the fixed place `body_start` on.
pub fn new_content(data: &[u8], today: &[u8], clear: bool) -> (r: Option<Vec<u8>>)
    requires
        rewrite_admits(data@, today@, clear),
    ensures
        match r {
            Some(v) => rewritten(data@, today@, clear) == Some(v@),
            None => rewritten(data@, today@, clear) is None,
        },
{
    let stamped = starts_with(data, today);
    if clear {
        if stamped {
            let n = first_line_len(data);
            let len = data.len();
            assert(data@.subrange(0, n as int) =~= data@.take(n as int));
            assert(n + SEPARATOR_LEN + 2 <= len);
            Some(build_framed(data, 0, n, CLEAR_LINES, data, n + SEPARATOR_LEN + 2))
        } else {
            assert(today@.subrange(0, today@.len() as int) =~= today@);
            Some(build_framed(today, 0, today.len(), CLEAR_LINES, data, 0))
        }
    } else if !stamped {
        assert(today@.subrange(0, today@.len() as int) =~= today@);
        Some(build_framed(today, 0, today.len(), PLAIN_LINES, data, 0))
    } else {
        None
    }
}

/// The number of blank lines at the start of `s`: the newlines that open it.
pub open spec fn leading_newlines(s: Seq<u8>) -> nat
    decreases s.len(),
{
    if s.len() > 0 && s[0] == NEWLINE {
        1 + leading_newlines(s.drop_first())
    } else {
        0
    }
}

/// `s` holds no newline and no carriage return.
pub open spec fn is_bare_line(s: Seq<u8>) -> bool {
    forall|i: int| 0 <= i < s.len() ==> s[i] != NEWLINE && s[i] != CARRIAGE_RETURN
}

/// No newline stands before `line_len`, and a newline stands at it unless it
/// is the end.
proof fn lemma_line_len_bounds(s: Seq<u8>)
    ensures
        line_len(s) <= s.len(),
        forall|j: int| 0 <= j < line_len(s) ==> s[j] != NEWLINE,
        line_len(s) < s.len() ==> s[line_len(s) as int] == NEWLINE,
    decreases s.len(),
{
    if s.len() > 0 && s[0] != NEWLINE {
        lemma_line_len_bounds(s.drop_first());
        assert forall|j: int| 0 <= j < line_len(s) implies s[j] != NEWLINE by {
            if j > 0 {
                assert(s[j] == s.drop_first()[j - 1]);
            }
        }
    }
}

/// The first line of `s` holds no newline.
proof fn lemma_first_line_has_no_newline(s: Seq<u8>)
    ensures
        forall|j: int| 0 <= j < first_line(s).len() ==> first_line(s)[j] != NEWLINE,
{
    lemma_line_len_bounds(s);
}

/// In `framed(header, pad, body)` the header is the first line and the
/// separator the second, and the blank lines and the body follow them.
proof fn lemma_framed_lines(header: Seq<u8>, pad: nat, body: Seq<u8>)
    requires
        forall|j: int| 0 <= j < header.len() ==> header[j] != NEWLINE,
        header.len() == 0 || header.last() != CARRIAGE_RETURN,
    ensures
        first_line(framed(header, pad, body)) == header,
        first_line(after_first_line(framed(header, pad, body))) == separator(),
        after_first_line(after_first_line(framed(header, pad, body))) == newlines(pad) + body,
{
    let f = framed(header, pad, body);
    let rest = separator() + seq![NEWLINE] + newlines(pad) + body;
    assert(f =~= header + seq![NEWLINE] + rest);
    lemma_line_len(f, header.len() as int);
    assert(f.take(header.len() as int) =~= header);
    assert(f.skip(header.len() + 1int) =~= rest);
    let sep = separator();
    let tail = newlines(pad) + body;
    assert(rest =~= sep + seq![NEWLINE] + tail);
    lemma_line_len(rest, sep.len() as int);
    assert(rest.take(sep.len() as int) =~= sep);
    assert(rest.skip(sep.len() + 1int) =~= tail);
}

/// `pad` newlines in front of `body` add `pad` blank lines to those it opens with.
proof fn lemma_leading_newlines(pad: nat, body: Seq<u8>)
    ensures
        leading_newlines(newlines(pad) + body) == pad + leading_newlines(body),
    decreases pad,
{
    if pad > 0 {
        assert((newlines(pad) + body).drop_first() =~= newlines((pad - 1) as nat) + body);
        lemma_leading_newlines((pad - 1) as nat, body);
    } else {
        assert(newlines(pad) + body =~= body);
    }
}

/// A date header holds no newline and no carriage return.
proof fn lemma_stamp_is_bare(d: CalendarDate)
    requires
        d.wf(),
    ensures
        is_bare_line(stamp_of(d)),
        stamp_of(d).len() > 0,
{
    lemma_stamp_bytes(d);
    assert forall|i: int| 0 <= i < stamp_of(d).len() implies stamp_of(d)[i] != NEWLINE
        && stamp_of(d)[i] != CARRIAGE_RETURN by {
        assert(is_stamp_byte(stamp_of(d)[i]));
    }
}

/// Rewriting without clearing is idempotent: a second rewrite on the same day
/// is admitted and leaves the content of the first as it is.
pub proof fn lemma_plain_rewrite_idempotent(data: Seq<u8>, today: Seq<u8>)
    requires
        rewrite_admits(data, today, false),
    ensures
        rewrite_admits(content_after(data, today, false), today, false),
        rewritten(content_after(data, today, false), today, false) is None,
        content_after(content_after(data, today, false), today, false) == content_after(
            data,
            today,
            false,
        ),
{
    if !is_stamped(data, today) {
        let c = framed(today, PLAIN_LINES as nat, data);
        assert(c.subrange(0, today.len() as int) =~= today);
    }
}

/// A plain rewrite of content that does not start with today's header makes
/// that header the first line and the separator the second.
pub proof fn lemma_plain_rewrite_header(data: Seq<u8>, d: CalendarDate)
    requires
        d.wf(),
        !is_stamped(data, stamp_of(d)),
    ensures
        first_line(content_after(data, stamp_of(d), false)) == stamp_of(d),
        first_line(after_first_line(content_after(data, stamp_of(d), false))) == separator(),
{
    lemma_stamp_is_bare(d);
    lemma_framed_lines(stamp_of(d), PLAIN_LINES as nat, data);
}

/// A clearing rewrite puts the separator on the second line and exactly fifty
/// blank lines after it, where the old content that it keeps does not itself
/// open with a blank line.
pub proof fn lemma_clear_padding(data: Seq<u8>, d: CalendarDate)
    requires
        d.wf(),
        rewrite_admits(data, stamp_of(d), true),
        !(cleared_body(data, stamp_of(d)).len() > 0 && cleared_body(data, stamp_of(d))[0]
            == NEWLINE),
    ensures
        first_line(after_first_line(content_after(data, stamp_of(d), true))) == separator(),
        leading_newlines(after_first_line(after_first_line(content_after(data, stamp_of(d), true))))
            == CLEAR_LINES,
{
    let today = stamp_of(d);
    let h = header_of(data, today);
    let b = cleared_body(data, today);
    lemma_stamp_is_bare(d);
    lemma_first_line_has_no_newline(data);
    if h.len() > 0 && h.last() == CARRIAGE_RETURN {
        // a header that ends in a carriage return reads shorter, but its
        // newline still ends the first line
        let f = framed(h, CLEAR_LINES as nat, b);
        let rest = separator() + seq![NEWLINE] + newlines(CLEAR_LINES as nat) + b;
        assert(f =~= h + seq![NEWLINE] + rest);
        lemma_line_len(f, h.len() as int);
        assert(f.skip(h.len() + 1int) =~= rest);
        let tail = newlines(CLEAR_LINES as nat) + b;
        assert(rest =~= separator() + seq![NEWLINE] + tail);
        lemma_line_len(rest, SEPARATOR_LEN as int);
        assert(rest.take(SEPARATOR_LEN as int) =~= separator());
        assert(rest.skip(SEPARATOR_LEN + 1) =~= tail);
    } else {
        lemma_framed_lines(h, CLEAR_LINES as nat, b);
    }
    lemma_leading_newlines(CLEAR_LINES as nat, b);
}

/// A clearing rewrite of content that already starts with today's header keeps
/// its first line, which still starts with that header, where that line does
/// not end in a carriage return.
pub proof fn lemma_same_day_clear_keeps_header(data: Seq<u8>, d: CalendarDate)
    requires
        d.wf(),
        is_stamped(data, stamp_of(d)),
        rewrite_admits(data, stamp_of(d), true),
        first_line(data).len() == 0 || first_line(data).last() != CARRIAGE_RETURN,
    ensures
        first_line(content_after(data, stamp_of(d), true)) == first_line(data),
        stamp_of(d).is_prefix_of(first_line(data)),
{
    let today = stamp_of(d);
    lemma_stamp_is_bare(d);
    lemma_first_line_has_no_newline(data);
    lemma_framed_lines(first_line(data), CLEAR_LINES as nat, cleared_body(data, today));
    lemma_line_len_bounds(data);
    let n = line_len(data) as int;
    assert(data.subrange(0, today.len() as int) =~= today);
    assert forall|j: int| 0 <= j < today.len() implies data[j] == today[j] by {
        assert(data.subrange(0, today.len() as int)[j] == data[j]);
    }
    if n < today.len() {
        assert(data[n] == today[n]);
    }
    if n < data.len() && n > 0 && data[n - 1] == CARRIAGE_RETURN && n - 1 < today.len() {
        assert(data[n - 1] == today[n - 1]);
    }
    assert(first_line(data).subrange(0, today.len() as int) =~= today);
}

/// Without clearing, content that already starts with today's header is left
/// exactly as it is.
pub proof fn lemma_same_day_plain_is_noop(data: Seq<u8>, today: Seq<u8>)
    requires
        is_stamped(data, today),
    ensures
        rewritten(data, today, false) is None,
        content_after(data, today, false) == data,
{
}

} // verus!
