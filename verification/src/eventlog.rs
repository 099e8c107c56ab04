//! The audit-trail line format: one JSON object per line, in a fixed
//! canonical shape, rendered and replayed by the library itself so
//! that what is written is exactly what the specification says.

use vstd::prelude::*;
use vstd::string::{StrSliceExecFns, StringExecFns};
use crate::text::{dec_digits, digit_char, push_char, push_decimal};
use crate::types::MetaValue;
use crate::storage::{EvalLogger, LogEntry, LogEvent};
use crate::types::now_millis;

verus! {

/// The character for one hexadecimal digit, lowercase.
pub open spec fn hex_digit(d: nat) -> char {
    if d < 10 {
        digit_char(d)
    } else if d == 10 { 'a' }
    else if d == 11 { 'b' }
    else if d == 12 { 'c' }
    else if d == 13 { 'd' }
    else if d == 14 { 'e' }
    else { 'f' }
}

fn hex_digit_exec(d: u32) -> (c: char)
    requires
        d < 16,
    ensures
        c == hex_digit(d as nat),
{
    if d == 0 { '0' }
    else if d == 1 { '1' }
    else if d == 2 { '2' }
    else if d == 3 { '3' }
    else if d == 4 { '4' }
    else if d == 5 { '5' }
    else if d == 6 { '6' }
    else if d == 7 { '7' }
    else if d == 8 { '8' }
    else if d == 9 { '9' }
    else if d == 10 { 'a' }
    else if d == 11 { 'b' }
    else if d == 12 { 'c' }
    else if d == 13 { 'd' }
    else if d == 14 { 'e' }
    else { 'f' }
}

/// How one character appears inside a JSON string: quotes, backslashes
/// and control characters are escaped, everything else stands as is.
pub open spec fn esc_char(c: char) -> Seq<char> {
    if c == '"' {
        seq!['\\', '"']
    } else if c == '\\' {
        seq!['\\', '\\']
    } else if c == '\n' {
        seq!['\\', 'n']
    } else if c == '\r' {
        seq!['\\', 'r']
    } else if c == '\t' {
        seq!['\\', 't']
    } else if (c as u32) < 0x20 {
        seq!['\\', 'u', '0', '0', hex_digit(((c as u32) / 16) as nat),
            hex_digit(((c as u32) % 16) as nat)]
    } else {
        seq![c]
    }
}

/// A string's characters with JSON escaping applied.
pub open spec fn esc_str(s: Seq<char>) -> Seq<char>
    decreases s.len(),
{
    if s.len() == 0 {
        Seq::empty()
    } else {
        esc_str(s.drop_last()) + esc_char(s.last())
    }
}

/// A JSON string token: the escaped characters between quotes.
pub open spec fn json_string(s: Seq<char>) -> Seq<char> {
    seq!['"'] + esc_str(s) + seq!['"']
}

/// Appends the JSON string token for `s`.
fn push_json_string(out: &mut String, s: &str)
    ensures
        final(out)@ == old(out)@ + json_string(s@),
{
    push_char(out, '"');
    let n = s.unicode_len();
    let mut i: usize = 0;
    while i < n
        invariant
            n == s@.len(),
            i <= n,
            out@ == old(out)@ + seq!['"'] + esc_str(s@.take(i as int)),
        decreases n - i,
    {
        proof {
            assert(s@.take(i + 1).drop_last() =~= s@.take(i as int));
            assert(s@.take(i + 1).last() == s@[i as int]);
        }
        let c = s.get_char(i);
        if c == '"' {
            push_char(out, '\\');
            push_char(out, '"');
        } else if c == '\\' {
            push_char(out, '\\');
            push_char(out, '\\');
        } else if c == '\n' {
            push_char(out, '\\');
            push_char(out, 'n');
        } else if c == '\r' {
            push_char(out, '\\');
            push_char(out, 'r');
        } else if c == '\t' {
            push_char(out, '\\');
            push_char(out, 't');
        } else if (c as u32) < 0x20 {
            push_char(out, '\\');
            push_char(out, 'u');
            push_char(out, '0');
            push_char(out, '0');
            push_char(out, hex_digit_exec((c as u32) / 16));
            push_char(out, hex_digit_exec((c as u32) % 16));
        } else {
            push_char(out, c);
        }
        proof {
            assert(out@ =~= old(out)@ + seq!['"'] + esc_str(s@.take(i + 1)));
        }
        i = i + 1;
    }
    proof {
        assert(s@.take(n as int) =~= s@);
    }
    push_char(out, '"');
    proof {
        assert(out@ =~= old(out)@ + json_string(s@));
    }
}

/// The decimal text of a signed timestamp.
pub open spec fn dec_i64(t: i64) -> Seq<char> {
    if t >= 0 {
        dec_digits(t as nat)
    } else {
        seq!['-'] + dec_digits((-(t as int)) as nat)
    }
}

/// Appends the decimal text of a signed timestamp.
fn push_decimal_i64(out: &mut String, t: i64)
    ensures
        final(out)@ == old(out)@ + dec_i64(t),
{
    if t >= 0 {
        push_decimal(out, t as u64);
    } else {
        push_char(out, '-');
        let mag: u64 = if t == i64::MIN {
            9223372036854775808u64
        } else {
            (-t) as u64
        };
        push_decimal(out, mag);
        proof {
            assert(out@ =~= old(out)@ + dec_i64(t));
        }
    }
}

/// The JSON text of one metadata value.
pub open spec fn enc_meta(v: MetaValue) -> Seq<char> {
    match v {
        MetaValue::Text(s) => json_string(s@),
        MetaValue::Int(n) => dec_digits(n as nat),
        MetaValue::Flag(b) => if b {
            "true"@
        } else {
            "false"@
        },
    }
}

/// The comma-separated JSON string items of a list.
pub open spec fn enc_str_items(xs: Seq<Seq<char>>) -> Seq<char>
    decreases xs.len(),
{
    if xs.len() == 0 {
        Seq::empty()
    } else if xs.len() == 1 {
        json_string(xs[0])
    } else {
        enc_str_items(xs.drop_last()) + seq![','] + json_string(xs.last())
    }
}

/// A JSON array of strings.
pub open spec fn enc_str_list(xs: Seq<Seq<char>>) -> Seq<char> {
    seq!['['] + enc_str_items(xs) + seq![']']
}

/// The comma-separated members of a JSON metadata object.
pub open spec fn enc_ctx_items(xs: Seq<(Seq<char>, MetaValue)>) -> Seq<char>
    decreases xs.len(),
{
    if xs.len() == 0 {
        Seq::empty()
    } else if xs.len() == 1 {
        json_string(xs[0].0) + seq![':'] + enc_meta(xs[0].1)
    } else {
        enc_ctx_items(xs.drop_last()) + seq![','] + json_string(xs.last().0) + seq![':']
            + enc_meta(xs.last().1)
    }
}

/// A JSON object of metadata pairs.
pub open spec fn enc_ctx(xs: Seq<(Seq<char>, MetaValue)>) -> Seq<char> {
    seq!['{'] + enc_ctx_items(xs) + seq!['}']
}

/// The canonical JSON text of one event payload.
pub open spec fn enc_event(e: LogEvent) -> Seq<char> {
    match e {
        LogEvent::JobStarted { models, prompts, metrics } => {
            "{\"type\":\"JobStarted\",\"models\":"@ + enc_str_list(models.deep_view())
                + ",\"prompts\":"@ + dec_digits(prompts as nat) + ",\"metrics\":"@
                + enc_str_list(metrics.deep_view()) + "}"@
        },
        LogEvent::ModelStarted { model_id, provider } => {
            "{\"type\":\"ModelStarted\",\"model_id\":"@ + json_string(model_id@)
                + ",\"provider\":"@ + json_string(provider@) + "}"@
        },
        LogEvent::ModelCompleted { model_id, success, outputs, errors, duration_ms } => {
            "{\"type\":\"ModelCompleted\",\"model_id\":"@ + json_string(model_id@)
                + ",\"success\":"@ + (if success { "true"@ } else { "false"@ })
                + ",\"outputs\":"@ + dec_digits(outputs as nat) + ",\"errors\":"@
                + dec_digits(errors as nat) + ",\"duration_ms\":"@
                + dec_digits(duration_ms as nat) + "}"@
        },
        LogEvent::MetricCalculated { metric_name, model_id, score } => {
            "{\"type\":\"MetricCalculated\",\"metric_name\":"@ + json_string(metric_name@)
                + ",\"model_id\":"@ + json_string(model_id@) + ",\"score\":"@
                + dec_digits(score as nat) + "}"@
        },
        LogEvent::JobCompleted { duration_ms, total_outputs, total_errors } => {
            "{\"type\":\"JobCompleted\",\"duration_ms\":"@ + dec_digits(duration_ms as nat)
                + ",\"total_outputs\":"@ + dec_digits(total_outputs as nat)
                + ",\"total_errors\":"@ + dec_digits(total_errors as nat) + "}"@
        },
        LogEvent::Error { message, context } => {
            "{\"type\":\"Error\",\"message\":"@ + json_string(message@) + ",\"context\":"@
                + enc_ctx(context@.map_values(|p: (String, MetaValue)| (p.0@, p.1))) + "}"@
        },
    }
}

/// The canonical JSON line of one audit-trail record, without the
/// trailing newline.
pub open spec fn enc_entry(e: LogEntry) -> Seq<char> {
    "{\"timestamp\":"@ + dec_i64(e.timestamp_ms) + ",\"job_id\":"@ + json_string(e.job_id@)
        + ",\"event\":"@ + enc_event(e.event) + "}"@
}

/// Appends a JSON array of the given strings.
fn push_str_list(out: &mut String, xs: &Vec<String>)
    ensures
        final(out)@ == old(out)@ + enc_str_list(xs.deep_view()),
{
    let ghost xv = xs.deep_view();
    push_char(out, '[');
    let mut i: usize = 0;
    while i < xs.len()
        invariant
            i <= xv.len(),
            xs.deep_view() == xv,
            xs@.len() == xv.len(),
            out@ == old(out)@ + seq!['['] + enc_str_items(xv.take(i as int)),
        decreases xv.len() - i,
    {
        proof {
            assert(xv.take(i + 1).drop_last() =~= xv.take(i as int));
            assert(xv.take(i + 1).last() == xv[i as int]);
        }
        if i > 0 {
            push_char(out, ',');
        }
        push_json_string(out, xs[i].as_str());
        proof {
            assert(out@ =~= old(out)@ + seq!['['] + enc_str_items(xv.take(i + 1)));
        }
        i = i + 1;
    }
    proof {
        assert(xv.take(xv.len() as int) =~= xv);
    }
    push_char(out, ']');
    proof {
        assert(out@ =~= old(out)@ + enc_str_list(xv));
    }
}

/// Appends the JSON text of one metadata value.
fn push_meta(out: &mut String, v: &MetaValue)
    ensures
        final(out)@ == old(out)@ + enc_meta(*v),
{
    match v {
        MetaValue::Text(s) => {
            push_json_string(out, s.as_str());
        },
        MetaValue::Int(n) => {
            push_decimal(out, *n);
        },
        MetaValue::Flag(b) => {
            if *b {
                out.append("true");
            } else {
                out.append("false");
            }
        },
    }
}

/// Appends a JSON object of the given metadata pairs.
fn push_ctx(out: &mut String, xs: &Vec<(String, MetaValue)>)
    ensures
        final(out)@ == old(out)@ + enc_ctx(
            xs@.map_values(|p: (String, MetaValue)| (p.0@, p.1)),
        ),
{
    let ghost xv = xs@.map_values(|p: (String, MetaValue)| (p.0@, p.1));
    push_char(out, '{');
    let mut i: usize = 0;
    while i < xs.len()
        invariant
            i <= xv.len(),
            xv == xs@.map_values(|p: (String, MetaValue)| (p.0@, p.1)),
            xs@.len() == xv.len(),
            out@ == old(out)@ + seq!['{'] + enc_ctx_items(xv.take(i as int)),
        decreases xv.len() - i,
    {
        proof {
            assert(xv.take(i + 1).drop_last() =~= xv.take(i as int));
            assert(xv.take(i + 1).last() == xv[i as int]);
        }
        if i > 0 {
            push_char(out, ',');
        }
        push_json_string(out, xs[i].0.as_str());
        push_char(out, ':');
        push_meta(out, &xs[i].1);
        proof {
            assert(out@ =~= old(out)@ + seq!['{'] + enc_ctx_items(xv.take(i + 1)));
        }
        i = i + 1;
    }
    proof {
        assert(xv.take(xv.len() as int) =~= xv);
    }
    push_char(out, '}');
    proof {
        assert(out@ =~= old(out)@ + enc_ctx(xv));
    }
}

/// The canonical JSON text of one event payload.
pub fn render_event(event: &LogEvent) -> (r: String)
    ensures
        r@ == enc_event(*event),
{
    let mut out = String::new();
    match event {
        LogEvent::JobStarted { models, prompts, metrics } => {
            out.append("{\"type\":\"JobStarted\",\"models\":");
            push_str_list(&mut out, models);
            out.append(",\"prompts\":");
            push_decimal(&mut out, *prompts as u64);
            out.append(",\"metrics\":");
            push_str_list(&mut out, metrics);
            out.append("}");
        },
        LogEvent::ModelStarted { model_id, provider } => {
            out.append("{\"type\":\"ModelStarted\",\"model_id\":");
            push_json_string(&mut out, model_id.as_str());
            out.append(",\"provider\":");
            push_json_string(&mut out, provider.as_str());
            out.append("}");
        },
        LogEvent::ModelCompleted { model_id, success, outputs, errors, duration_ms } => {
            out.append("{\"type\":\"ModelCompleted\",\"model_id\":");
            push_json_string(&mut out, model_id.as_str());
            out.append(",\"success\":");
            if *success {
                out.append("true");
            } else {
                out.append("false");
            }
            out.append(",\"outputs\":");
            push_decimal(&mut out, *outputs as u64);
            out.append(",\"errors\":");
            push_decimal(&mut out, *errors as u64);
            out.append(",\"duration_ms\":");
            push_decimal(&mut out, *duration_ms);
            out.append("}");
        },
        LogEvent::MetricCalculated { metric_name, model_id, score } => {
            out.append("{\"type\":\"MetricCalculated\",\"metric_name\":");
            push_json_string(&mut out, metric_name.as_str());
            out.append(",\"model_id\":");
            push_json_string(&mut out, model_id.as_str());
            out.append(",\"score\":");
            push_decimal(&mut out, *score);
            out.append("}");
        },
        LogEvent::JobCompleted { duration_ms, total_outputs, total_errors } => {
            out.append("{\"type\":\"JobCompleted\",\"duration_ms\":");
            push_decimal(&mut out, *duration_ms);
            out.append(",\"total_outputs\":");
            push_decimal(&mut out, *total_outputs as u64);
            out.append(",\"total_errors\":");
            push_decimal(&mut out, *total_errors as u64);
            out.append("}");
        },
        LogEvent::Error { message, context } => {
            out.append("{\"type\":\"Error\",\"message\":");
            push_json_string(&mut out, message.as_str());
            out.append(",\"context\":");
            push_ctx(&mut out, context);
            out.append("}");
        },
    }
    proof {
        assert(out@ =~= enc_event(*event));
    }
    out
}

/// The canonical JSON line of one audit-trail record.
pub fn render_entry(entry: &LogEntry) -> (r: String)
    ensures
        r@ == enc_entry(*entry),
{
    let mut out = String::new();
    out.append("{\"timestamp\":");
    push_decimal_i64(&mut out, entry.timestamp_ms);
    out.append(",\"job_id\":");
    push_json_string(&mut out, entry.job_id.as_str());
    out.append(",\"event\":");
    let ev = render_event(&entry.event);
    out.append(ev.as_str());
    out.append("}");
    proof {
        assert(out@ =~= enc_entry(*entry));
    }
    out
}

/// Checks that `lit` occurs in `s` at `pos`; on success the new
/// position is just past it.
fn expect_lit(s: &str, pos: usize, lit: &str) -> (r: Option<usize>)
    requires
        pos <= s@.len(),
    ensures
        r matches Some(p2) ==> p2 == pos + lit@.len() && p2 <= s@.len() && s@.subrange(
            pos as int,
            p2 as int,
        ) == lit@,
        (pos + lit@.len() <= s@.len() && s@.subrange(pos as int, pos + lit@.len()) == lit@)
            ==> r is Some,
{
    let slen = s.unicode_len();
    let n = lit.unicode_len();
    if n > slen - pos {
        return None;
    }
    let mut j: usize = 0;
    while j < n
        invariant
            n == lit@.len(),
            slen == s@.len(),
            pos + n <= slen,
            j <= n,
            forall|k: int| 0 <= k < j ==> s@[pos + k] == lit@[k],
        decreases n - j,
    {
        if s.get_char(pos + j) != lit.get_char(j) {
            proof {
                if s@.subrange(pos as int, pos + n) == lit@ {
                    assert(s@[pos + j] == s@.subrange(pos as int, pos + n)[j as int]);
                }
            }
            return None;
        }
        j = j + 1;
    }
    proof {
        assert(s@.subrange(pos as int, (pos + n) as int) =~= lit@);
    }
    Some(pos + n)
}

proof fn lemma_dec_append(v: nat, d: nat)
    requires
        d < 10,
        v >= 1,
    ensures
        dec_digits(v * 10 + d) == dec_digits(v) + seq![digit_char(d)],
{
    let w = v * 10 + d;
    assert(w >= 10) by (nonlinear_arith)
        requires v >= 1 && d < 10 && w == v * 10 + d;
    assert(w / 10 == v && w % 10 == d) by (nonlinear_arith)
        requires v >= 1 && d < 10 && w == v * 10 + d;
    assert(dec_digits(w) =~= dec_digits(v) + seq![digit_char(d)]);
}

/// The digit value of a decimal digit character.
fn digit_val(c: char) -> (r: Option<u64>)
    ensures
        r matches Some(d) ==> d < 10 && c == digit_char(d as nat),
        r is None ==> !crate::text::is_digit_char(c),
{
    if c == '0' { Some(0) }
    else if c == '1' { Some(1) }
    else if c == '2' { Some(2) }
    else if c == '3' { Some(3) }
    else if c == '4' { Some(4) }
    else if c == '5' { Some(5) }
    else if c == '6' { Some(6) }
    else if c == '7' { Some(7) }
    else if c == '8' { Some(8) }
    else if c == '9' { Some(9) }
    else {
        proof {
            assert forall|d: nat| d < 10 implies c != digit_char(d) by {
                if d == 0 {} else if d == 1 {} else if d == 2 {} else if d == 3 {}
                else if d == 4 {} else if d == 5 {} else if d == 6 {} else if d == 7 {}
                else if d == 8 {} else {}
            }
        }
        None
    }
}

/// Whether a character is a lowercase hexadecimal digit.
pub open spec fn is_hex_char(c: char) -> bool {
    exists|d: nat| d < 16 && c == hex_digit(d)
}

/// No two hexadecimal digits share a character.
proof fn lemma_hex_digit_injective(a: nat, b: nat)
    requires
        a < 16,
        b < 16,
        hex_digit(a) == hex_digit(b),
    ensures
        a == b,
{
}

/// The digit value of a lowercase hexadecimal digit character.
fn hex_val(c: char) -> (r: Option<u32>)
    ensures
        r matches Some(d) ==> d < 16 && c == hex_digit(d as nat),
        r is None ==> !is_hex_char(c),
{
    if c == '0' { Some(0) }
    else if c == '1' { Some(1) }
    else if c == '2' { Some(2) }
    else if c == '3' { Some(3) }
    else if c == '4' { Some(4) }
    else if c == '5' { Some(5) }
    else if c == '6' { Some(6) }
    else if c == '7' { Some(7) }
    else if c == '8' { Some(8) }
    else if c == '9' { Some(9) }
    else if c == 'a' { Some(10) }
    else if c == 'b' { Some(11) }
    else if c == 'c' { Some(12) }
    else if c == 'd' { Some(13) }
    else if c == 'e' { Some(14) }
    else if c == 'f' { Some(15) }
    else {
        proof {
            assert forall|d: nat| d < 16 implies c != hex_digit(d) by {
                if d == 0 {} else if d == 1 {} else if d == 2 {} else if d == 3 {}
                else if d == 4 {} else if d == 5 {} else if d == 6 {} else if d == 7 {}
                else if d == 8 {} else if d == 9 {} else if d == 10 {} else if d == 11 {}
                else if d == 12 {} else if d == 13 {} else if d == 14 {} else {}
            }
        }
        None
    }
}

/// Whether the text at `pos` is the decimal rendering of `v` with no
/// digit following it: the canonical shape `parse_u64` must accept.
pub open spec fn dec_at(s: Seq<char>, pos: int, v: u64) -> bool {
    &&& pos + dec_digits(v as nat).len() <= s.len()
    &&& s.subrange(pos, pos + dec_digits(v as nat).len()) == dec_digits(v as nat)
    &&& (pos + dec_digits(v as nat).len() == s.len() || !crate::text::is_digit_char(
        s[pos + dec_digits(v as nat).len()],
    ))
}

/// Reads a canonical decimal number at `pos`: what was consumed is
/// exactly the decimal text of the value, and a canonical number at
/// `pos` is always read back.
fn parse_u64(s: &str, pos: usize) -> (r: Option<(u64, usize)>)
    requires
        pos <= s@.len(),
    ensures
        r matches Some(p) ==> pos < p.1 <= s@.len() && s@.subrange(pos as int, p.1 as int)
            == dec_digits(p.0 as nat),
        forall|v: u64| dec_at(s@, pos as int, v) ==> (r matches Some(p) && p.0 == v
            && p.1 == pos + dec_digits(v as nat).len()),
{
    let slen = s.unicode_len();
    proof {
        assert forall|v: u64| dec_at(s@, pos as int, v) implies pos < s@.len() by {
            crate::text::lemma_dec_digits_len(v as nat);
        }
    }
    if pos >= slen {
        return None;
    }
    let c0 = s.get_char(pos);
    let d0 = match digit_val(c0) {
        Some(d) => d,
        None => {
            proof {
                assert forall|v: u64| !dec_at(s@, pos as int, v) by {
                    if dec_at(s@, pos as int, v) {
                        crate::text::lemma_dec_digits_len(v as nat);
                        crate::text::lemma_dec_digits_are_digits(v as nat);
                        assert(s@[pos as int] == dec_digits(v as nat)[0]);
                        assert(crate::text::is_digit_char(s@[pos as int]));
                    }
                }
            }
            return None;
        },
    };
    if d0 == 0 {
        proof {
            assert(s@.subrange(pos as int, pos + 1) =~= dec_digits(0));
            assert forall|v: u64| dec_at(s@, pos as int, v) implies 0 == v && pos + 1 == pos
                + dec_digits(v as nat).len() by {
                crate::text::lemma_dec_digits_len(v as nat);
                assert(s@[pos as int] == dec_digits(v as nat)[0]);
                assert(dec_digits(v as nat)[0] == digit_char(0));
                if v >= 1 {
                    crate::text::lemma_dec_digits_leading(v as nat);
                }
            }
        }
        return Some((0, pos + 1));
    }
    let mut v: u64 = d0;
    let mut j: usize = pos + 1;
    proof {
        assert(s@.subrange(pos as int, pos + 1) =~= dec_digits(d0 as nat));
        assert forall|w: u64| dec_at(s@, pos as int, w) implies j <= pos
            + dec_digits(w as nat).len() by {
            crate::text::lemma_dec_digits_len(w as nat);
        }
    }
    while j < slen
        invariant
            slen == s@.len(),
            pos < j <= slen,
            v >= 1,
            s@.subrange(pos as int, j as int) == dec_digits(v as nat),
            forall|w: u64| dec_at(s@, pos as int, w) ==> j <= pos + dec_digits(w as nat).len(),
        decreases slen - j,
    {
        let c = s.get_char(j);
        match digit_val(c) {
            Some(d) => {
                proof {
                    lemma_dec_target(s@, pos as int, j as int, v, d);
                }
                if v > (u64::MAX - d) / 10 {
                    proof {
                        assert forall|w: u64| !dec_at(s@, pos as int, w) by {
                            if dec_at(s@, pos as int, w) {
                                assert((v as int) * 10 + d <= w);
                                assert(v <= ((u64::MAX - d) / 10) as int) by (nonlinear_arith)
                                    requires
                                        d < 10,
                                        0 <= v,
                                        (v as int) * 10 + d <= u64::MAX;
                            }
                        }
                    }
                    return None;
                }
                proof {
                    assert((v as int) * 10 + d <= u64::MAX) by (nonlinear_arith)
                        requires
                            d < 10,
                            0 <= v,
                            v <= (u64::MAX - d) / 10;
                    lemma_dec_append(v as nat, d as nat);
                }
                v = v * 10 + d;
                j = j + 1;
                proof {
                    assert(s@.subrange(pos as int, j as int)
                        =~= s@.subrange(pos as int, j - 1) + seq![s@[j - 1]]);
                }
            },
            None => {
                proof {
                    lemma_dec_stop(s@, pos as int, j as int, v);
                }
                return Some((v, j));
            },
        }
    }
    proof {
        lemma_dec_stop(s@, pos as int, j as int, v);
    }
    Some((v, j))
}

/// At a digit continuation: any canonical target `w` at `pos` extends
/// past `j` and dominates the value read so far.
proof fn lemma_dec_target(s: Seq<char>, pos: int, j: int, v: u64, d: u64)
    requires
        0 <= pos < j < s.len(),
        v >= 1,
        d < 10,
        s.subrange(pos, j) == dec_digits(v as nat),
        s[j] == digit_char(d as nat),
        forall|w: u64| dec_at(s, pos, w) ==> j <= pos + dec_digits(w as nat).len(),
    ensures
        forall|w: u64| dec_at(s, pos, w) ==> j + 1 <= pos + dec_digits(w as nat).len()
            && (v as int) * 10 + d <= w,
{
    assert forall|w: u64| dec_at(s, pos, w) implies j + 1 <= pos + dec_digits(w as nat).len()
        && (v as int) * 10 + d <= w by {
        let wl = dec_digits(w as nat).len() as int;
        // the read prefix is a prefix of w's rendering
        assert(dec_digits(v as nat) =~= dec_digits(w as nat).take(j - pos)) by {
            assert forall|k: int| 0 <= k < j - pos implies dec_digits(v as nat)[k]
                == dec_digits(w as nat)[k] by {
                assert(dec_digits(v as nat)[k] == s[pos + k]);
                assert(dec_digits(w as nat)[k] == s.subrange(pos, pos + wl)[k]);
            }
        }
        if j == pos + wl {
            // w's rendering would end here, but a digit follows
            crate::text::lemma_dec_digits_are_digits(v as nat);
            assert(crate::text::is_digit_char(s[j])) by {
                assert(s[j] == digit_char(d as nat));
            }
            assert(false);
        }
        // one more digit of w is s[j], so v*10+d renders a prefix of w
        lemma_dec_append(v as nat, d as nat);
        assert(dec_digits((v as nat) * 10 + d as nat)
            =~= dec_digits(w as nat).take(j + 1 - pos)) by {
            assert forall|k: int| 0 <= k < j + 1 - pos implies dec_digits(
                (v as nat) * 10 + d as nat,
            )[k] == dec_digits(w as nat)[k] by {
                if k < j - pos {
                    assert(dec_digits((v as nat) * 10 + d as nat)[k] == dec_digits(v as nat)[k]);
                } else {
                    assert(dec_digits((v as nat) * 10 + d as nat)[k] == digit_char(d as nat));
                    assert(dec_digits(w as nat)[k] == s.subrange(pos, pos + wl)[k]);
                    assert(dec_digits(w as nat)[k] == s[j]);
                }
            }
        }
        assert(dec_digits(w as nat)
            =~= dec_digits(w as nat).take(j + 1 - pos) + dec_digits(w as nat).skip(j + 1 - pos));
        crate::text::lemma_dec_prefix_le(
            ((v as nat) * 10 + d as nat) as nat,
            w as nat,
            dec_digits(w as nat).skip(j + 1 - pos),
        );
    }
}

/// At a non-digit (or the end of the text): the value read so far is
/// exactly any canonical target at `pos`.
proof fn lemma_dec_stop(s: Seq<char>, pos: int, j: int, v: u64)
    requires
        0 <= pos < j <= s.len(),
        s.subrange(pos, j) == dec_digits(v as nat),
        j == s.len() || !crate::text::is_digit_char(s[j]),
        forall|w: u64| dec_at(s, pos, w) ==> j <= pos + dec_digits(w as nat).len(),
    ensures
        forall|w: u64| dec_at(s, pos, w) ==> v == w && j == pos + dec_digits(w as nat).len(),
{
    assert forall|w: u64| dec_at(s, pos, w) implies v == w && j == pos
        + dec_digits(w as nat).len() by {
        let wl = dec_digits(w as nat).len() as int;
        if j < pos + wl {
            // w's rendering continues with a digit at j, but none follows
            crate::text::lemma_dec_digits_are_digits(w as nat);
            assert(s[j] == s.subrange(pos, pos + wl)[j - pos]);
            assert(s[j] == dec_digits(w as nat)[j - pos]);
            assert(crate::text::is_digit_char(s[j]));
            assert(j < s.len());
            assert(false);
        }
        assert(j == pos + wl);
        assert(dec_digits(v as nat) =~= dec_digits(w as nat)) by {
            assert forall|k: int| 0 <= k < wl implies dec_digits(v as nat)[k]
                == dec_digits(w as nat)[k] by {
                assert(dec_digits(v as nat)[k] == s[pos + k]);
                assert(dec_digits(w as nat)[k] == s.subrange(pos, pos + wl)[k]);
            }
        }
        crate::text::lemma_dec_digits_injective(v as nat, w as nat);
    }
}

/// Whether the text at `pos` is the signed decimal rendering of `t`
/// with no digit following it.
pub open spec fn dec_i64_at(s: Seq<char>, pos: int, t: i64) -> bool {
    &&& pos + dec_i64(t).len() <= s.len()
    &&& s.subrange(pos, pos + dec_i64(t).len()) == dec_i64(t)
    &&& (pos + dec_i64(t).len() == s.len() || !crate::text::is_digit_char(
        s[pos + dec_i64(t).len()],
    ))
}

/// Reads a canonical signed decimal number at `pos`; a canonical
/// number there is always read back.
fn parse_i64(s: &str, pos: usize) -> (r: Option<(i64, usize)>)
    requires
        pos <= s@.len(),
    ensures
        r matches Some(p) ==> pos < p.1 <= s@.len() && s@.subrange(pos as int, p.1 as int)
            == dec_i64(p.0),
        forall|t: i64| dec_i64_at(s@, pos as int, t) ==> (r matches Some(p)
            && p.1 == pos + dec_i64(t).len()),
{
    let slen = s.unicode_len();
    proof {
        assert forall|t: i64| dec_i64_at(s@, pos as int, t) implies pos < s@.len() by {
            crate::text::lemma_dec_digits_len(mag_of(t));
        }
    }
    if pos >= slen {
        return None;
    }
    proof {
        assert forall|t: i64| dec_i64_at(s@, pos as int, t) && t >= 0 implies dec_at(
            s@,
            pos as int,
            t as u64,
        ) && s@[pos as int] != '-' by {
            assert(dec_i64(t) == dec_digits((t as u64) as nat));
            crate::text::lemma_dec_digits_len((t as u64) as nat);
            crate::text::lemma_dec_digits_are_digits((t as u64) as nat);
            assert(s@[pos as int] == dec_digits((t as u64) as nat)[0]);
            assert(crate::text::is_digit_char(s@[pos as int]));
            lemma_dash_not_digit(s@[pos as int]);
        }
        assert forall|t: i64| dec_i64_at(s@, pos as int, t) && t < 0 implies s@[pos as int]
            == '-' && dec_at(s@, pos + 1, mag_u64(t)) by {
            assert(dec_i64(t)[0] == '-');
            assert(s@[pos as int] == dec_i64(t)[0]);
            assert(dec_digits(mag_of(t)) =~= s@.subrange(
                pos + 1,
                pos + dec_i64(t).len(),
            )) by {
                assert forall|k: int| 0 <= k < dec_digits(mag_of(t)).len()
                    implies dec_digits(mag_of(t))[k] == s@.subrange(
                    pos + 1,
                    pos + dec_i64(t).len(),
                )[k] by {
                    assert(dec_i64(t)[k + 1] == dec_digits(mag_of(t))[k]);
                    assert(s@[pos + 1 + k] == dec_i64(t)[k + 1]);
                }
            }
        }
    }
    if s.get_char(pos) == '-' {
        proof {
            // a non-negative target would start with a digit, not '-'
            assert forall|t: i64| dec_i64_at(s@, pos as int, t) implies t < 0 by {
                if t >= 0 {
                    lemma_dash_not_digit(s@[pos as int]);
                }
            }
        }
        match parse_u64(s, pos + 1) {
            Some((mag, p2)) => {
                proof {
                    assert forall|t: i64| dec_i64_at(s@, pos as int, t) implies mag
                        == mag_u64(t) && p2 == pos + dec_i64(t).len() by {
                        assert(dec_at(s@, pos + 1, mag_u64(t)));
                    }
                }
                if mag == 0 || mag > 9223372036854775808u64 {
                    proof {
                        assert forall|t: i64| !dec_i64_at(s@, pos as int, t) by {
                            if dec_i64_at(s@, pos as int, t) {
                                assert(1 <= mag_u64(t) <= 9223372036854775808u64);
                            }
                        }
                    }
                    return None;
                }
                let value: i64 = if mag == 9223372036854775808u64 {
                    i64::MIN
                } else {
                    -(mag as i64)
                };
                proof {
                    assert(s@.subrange(pos as int, p2 as int) =~= seq!['-'] + s@.subrange(
                        pos + 1,
                        p2 as int,
                    ));
                    assert(s@.subrange(pos as int, p2 as int) =~= dec_i64(value));
                }
                Some((value, p2))
            },
            None => None,
        }
    } else {
        proof {
            assert forall|t: i64| dec_i64_at(s@, pos as int, t) implies t >= 0 by {
                if t < 0 {
                    assert(s@[pos as int] == '-');
                }
            }
        }
        match parse_u64(s, pos) {
            Some((v, p2)) => {
                proof {
                    assert forall|t: i64| dec_i64_at(s@, pos as int, t) implies v == t as u64
                        && p2 == pos + dec_i64(t).len() by {
                        assert(dec_at(s@, pos as int, t as u64));
                    }
                }
                if v > i64::MAX as u64 {
                    proof {
                        assert forall|t: i64| !dec_i64_at(s@, pos as int, t) by {
                            if dec_i64_at(s@, pos as int, t) {
                                assert(v == t as u64 && t >= 0);
                            }
                        }
                    }
                    return None;
                }
                Some((v as i64, p2))
            },
            None => None,
        }
    }
}

/// The magnitude of a negative timestamp, as the unsigned value its
/// digits render.
pub open spec fn mag_of(t: i64) -> nat {
    if t >= 0 {
        t as nat
    } else {
        (-(t as int)) as nat
    }
}

/// The magnitude of a negative timestamp as a 64-bit value.
pub open spec fn mag_u64(t: i64) -> u64 {
    mag_of(t) as u64
}

/// A decimal digit is none of the punctuation the line grammar uses.
proof fn lemma_digit_char_ne(d: nat)
    requires
        d < 10,
    ensures
        digit_char(d) != '"',
        digit_char(d) != 't',
        digit_char(d) != 'f',
        digit_char(d) != ',',
        digit_char(d) != '}',
        digit_char(d) != ']',
        digit_char(d) != ':',
{
    if d == 0 {} else if d == 1 {} else if d == 2 {} else if d == 3 {} else if d == 4 {}
    else if d == 5 {} else if d == 6 {} else if d == 7 {} else if d == 8 {} else {}
}

/// The grammar's punctuation characters are not digits.
proof fn lemma_not_digit_char(c: char)
    requires
        c == ',' || c == '}' || c == ']' || c == ':' || c == '"' || c == 't' || c == 'f',
    ensures
        !crate::text::is_digit_char(c),
{
    if crate::text::is_digit_char(c) {
        let d = choose|d: nat| d < 10 && c == digit_char(d);
        lemma_digit_char_ne(d);
    }
}

proof fn lemma_dash_not_digit(c: char)
    requires
        crate::text::is_digit_char(c),
    ensures
        c != '-',
{
    let d = choose|d: nat| d < 10 && c == digit_char(d);
    if d == 0 {} else if d == 1 {} else if d == 2 {} else if d == 3 {} else if d == 4 {}
    else if d == 5 {} else if d == 6 {} else if d == 7 {} else if d == 8 {} else {}
}

/// One character's escape never opens with a quote, and never is one.
proof fn lemma_esc_char_shape(c: char)
    ensures
        1 <= esc_char(c).len() <= 6,
        esc_char(c)[0] != '"',
{
    vstd::utf8::char_u32_cast(c, c as u32);
    vstd::utf8::char_u32_cast('"', '"' as u32);
}

/// Escaping one more character appends that character's escape.
proof fn lemma_esc_take_succ(t: Seq<char>, m: int)
    requires
        0 <= m < t.len(),
    ensures
        esc_str(t.take(m + 1)) == esc_str(t.take(m)) + esc_char(t[m]),
{
    assert(t.take(m + 1).drop_last() =~= t.take(m));
    assert(t.take(m + 1).last() == t[m]);
}

/// The escape of a prefix is a prefix of the escape.
proof fn lemma_esc_take_prefix(t: Seq<char>, k: int)
    requires
        0 <= k <= t.len(),
    ensures
        esc_str(t.take(k)).len() <= esc_str(t).len(),
        esc_str(t).take(esc_str(t.take(k)).len() as int) == esc_str(t.take(k)),
    decreases t.len() - k,
{
    if k == t.len() {
        assert(t.take(k) =~= t);
        assert(esc_str(t).take(esc_str(t).len() as int) =~= esc_str(t));
    } else {
        lemma_esc_take_prefix(t, k + 1);
        lemma_esc_take_succ(t, k);
        assert(esc_str(t).take(esc_str(t.take(k)).len() as int) =~= esc_str(t.take(k)));
    }
}

/// Whether the text at `pos` is the JSON string token of `t`.
pub open spec fn jstr_at(s: Seq<char>, pos: int, t: Seq<char>) -> bool {
    &&& pos + json_string(t).len() <= s.len()
    &&& s.subrange(pos, pos + json_string(t).len()) == json_string(t)
}

/// What the token of `t` dictates at scan position `m`: the next
/// characters of `s` are the escape of `t[m]`, or the closing quote.
proof fn lemma_jstr_step(s: Seq<char>, pos: int, t: Seq<char>, m: int)
    requires
        0 <= pos,
        jstr_at(s, pos, t),
        0 <= m <= t.len(),
    ensures
        esc_str(t.take(m)).len() + (if m < t.len() { esc_char(t[m]).len() } else { 0 })
            <= esc_str(t).len(),
        m < t.len() ==> forall|q: int|
            0 <= q < esc_char(t[m]).len() ==> s[pos + 1 + esc_str(t.take(m)).len() + q]
                == esc_char(t[m])[q],
        m == t.len() ==> s[pos + 1 + esc_str(t).len() as int] == '"',
        m == t.len() ==> esc_str(t.take(m)) == esc_str(t),
{
    let jl = json_string(t).len() as int;
    assert forall|i: int| 0 <= i < jl implies s[pos + i] == json_string(t)[i] by {
        assert(s.subrange(pos, pos + jl)[i] == json_string(t)[i]);
    }
    assert(forall|i: int|
        0 <= i < esc_str(t).len() ==> json_string(t)[1 + i] == esc_str(t)[i]);
    if m < t.len() {
        lemma_esc_take_prefix(t, m + 1);
        lemma_esc_take_succ(t, m);
        let lm = esc_str(t.take(m)).len() as int;
        assert forall|q: int| 0 <= q < esc_char(t[m]).len() implies s[pos + 1 + lm + q]
            == esc_char(t[m])[q] by {
            assert(esc_str(t)[lm + q] == esc_str(t).take(
                esc_str(t.take(m + 1)).len() as int,
            )[lm + q]);
            assert(esc_str(t.take(m + 1))[lm + q] == esc_char(t[m])[q]);
        }
    } else {
        assert(t.take(m) =~= t);
        assert(json_string(t)[1 + esc_str(t).len() as int] == '"');
    }
}

/// Reads a canonical JSON string token at `pos`: what was consumed is
/// exactly the token of the returned text, and a canonical token at
/// `pos` is always read back.
fn parse_json_string(s: &str, pos: usize) -> (r: Option<(String, usize)>)
    requires
        pos <= s@.len(),
    ensures
        r matches Some(p) ==> pos < p.1 <= s@.len() && s@.subrange(pos as int, p.1 as int)
            == json_string(p.0@),
        forall|t: Seq<char>| jstr_at(s@, pos as int, t) ==> (r matches Some(p)
            && p.1 == pos + json_string(t).len()),
{
    let slen = s.unicode_len();
    proof {
        assert forall|t: Seq<char>| jstr_at(s@, pos as int, t) implies pos < s@.len()
            && s@[pos as int] == '"' by {
            assert(s@[pos as int] == json_string(t)[0]);
        }
    }
    if pos >= slen || s.get_char(pos) != '"' {
        return None;
    }
    let mut out = String::new();
    let mut j: usize = pos + 1;
    proof {
        assert forall|t: Seq<char>| jstr_at(s@, pos as int, t) implies out@ == t.take(
            out@.len() as int,
        ) && out@.len() <= t.len() && j == pos + 1 + esc_str(out@).len() by {
            assert(out@ =~= t.take(0));
        }
    }
    while j < slen
        invariant
            slen == s@.len(),
            pos < j <= slen,
            s@[pos as int] == '"',
            s@.subrange(pos + 1, j as int) == esc_str(out@),
            forall|t: Seq<char>| jstr_at(s@, pos as int, t) ==> out@ == t.take(
                out@.len() as int,
            ) && out@.len() <= t.len() && j == pos + 1 + esc_str(out@).len(),
        decreases slen - j,
    {
        let c = s.get_char(j);
        let ghost out0 = out@;
        proof {
            // what each canonical target says the next characters are
            assert forall|t: Seq<char>| jstr_at(s@, pos as int, t) implies ({
                let m = out0.len() as int;
                &&& esc_str(t.take(m)) == esc_str(out0)
                &&& (m < t.len() ==> {
                    &&& j + esc_char(t[m]).len() + 1 <= pos + json_string(t).len()
                    &&& forall|q: int|
                        0 <= q < esc_char(t[m]).len() ==> s@[j + q] == esc_char(t[m])[q]
                })
                &&& (m == t.len() ==> s@[j as int] == '"' && esc_str(out0) == esc_str(t)
                    && j + 1 == pos + json_string(t).len())
            }) by {
                let m = out0.len() as int;
                assert(esc_str(t.take(m)) == esc_str(out0));
                lemma_jstr_step(s@, pos as int, t, m);
            }
        }
        if c == '"' {
            proof {
                assert(s@.subrange(pos as int, j + 1) =~= seq!['"'] + esc_str(out@)
                    + seq!['"']);
                assert forall|t: Seq<char>| jstr_at(s@, pos as int, t) implies out0.len()
                    == t.len() && j + 1 == pos + json_string(t).len() by {
                    let m = out0.len() as int;
                    if m < t.len() {
                        lemma_esc_char_shape(t[m]);
                        assert(s@[j + 0] == esc_char(t[m])[0]);
                    }
                }
            }
            return Some((out, j + 1));
        } else if c == '\\' {
            proof {
                assert forall|t: Seq<char>| jstr_at(s@, pos as int, t) implies out0.len()
                    < t.len() && j + esc_char(t[out0.len() as int]).len() + 1 <= pos
                    + json_string(t).len() && esc_char(t[out0.len() as int])[0] == '\\'
                    && esc_char(t[out0.len() as int]).len() >= 2 by {
                    let m = out0.len() as int;
                    if m == t.len() {
                        assert(s@[j as int] == '"');
                    }
                    lemma_esc_char_shape(t[m]);
                    assert(esc_char(t[m])[0] == s@[j as int]);
                    vstd::utf8::char_u32_cast(t[m], t[m] as u32);
                    vstd::utf8::char_u32_cast('\\', '\\' as u32);
                }
            }
            if j + 1 >= slen {
                proof {
                    assert forall|t: Seq<char>| !jstr_at(s@, pos as int, t) by {
                        if jstr_at(s@, pos as int, t) {
                            assert(pos + json_string(t).len() <= slen);
                        }
                    }
                }
                return None;
            }
            let ghost j0 = j as int;
            let e = s.get_char(j + 1);
            let dec: char;
            if e == '"' {
                dec = '"';
                j = j + 2;
            } else if e == '\\' {
                dec = '\\';
                j = j + 2;
            } else if e == 'n' {
                dec = '\n';
                j = j + 2;
            } else if e == 'r' {
                dec = '\r';
                j = j + 2;
            } else if e == 't' {
                dec = '\t';
                j = j + 2;
            } else if e == 'u' {
                proof {
                    assert forall|t: Seq<char>| jstr_at(s@, pos as int, t) implies ({
                        let m = out0.len() as int;
                        &&& esc_char(t[m]).len() == 6
                        &&& (t[m] as u32) < 0x20
                        &&& t[m] != '\n' && t[m] != '\r' && t[m] != '\t'
                        &&& j + 7 <= pos + json_string(t).len()
                    }) by {
                        let m = out0.len() as int;
                        assert(esc_char(t[m])[1] == s@[j0 + 1]);
                    }
                }
                if slen - j < 6 {
                    proof {
                        assert forall|t: Seq<char>| !jstr_at(s@, pos as int, t) by {
                            if jstr_at(s@, pos as int, t) {
                                assert(pos + json_string(t).len() <= slen);
                            }
                        }
                    }
                    return None;
                }
                if s.get_char(j + 2) != '0' || s.get_char(j + 3) != '0' {
                    proof {
                        assert forall|t: Seq<char>| !jstr_at(s@, pos as int, t) by {
                            if jstr_at(s@, pos as int, t) {
                                let m = out0.len() as int;
                                assert(s@[j0 + 2] == esc_char(t[m])[2]);
                                assert(s@[j0 + 3] == esc_char(t[m])[3]);
                            }
                        }
                    }
                    return None;
                }
                let h1 = match hex_val(s.get_char(j + 4)) {
                    Some(h) => h,
                    None => {
                        proof {
                            assert forall|t: Seq<char>| !jstr_at(s@, pos as int, t) by {
                                if jstr_at(s@, pos as int, t) {
                                    let m = out0.len() as int;
                                    assert(s@[j0 + 4] == esc_char(t[m])[4]);
                                    assert(is_hex_char(s@[j0 + 4]));
                                }
                            }
                        }
                        return None;
                    },
                };
                let h2 = match hex_val(s.get_char(j + 5)) {
                    Some(h) => h,
                    None => {
                        proof {
                            assert forall|t: Seq<char>| !jstr_at(s@, pos as int, t) by {
                                if jstr_at(s@, pos as int, t) {
                                    let m = out0.len() as int;
                                    assert(s@[j0 + 5] == esc_char(t[m])[5]);
                                    assert(is_hex_char(s@[j0 + 5]));
                                }
                            }
                        }
                        return None;
                    },
                };
                let val: u32 = h1 * 16 + h2;
                proof {
                    assert forall|t: Seq<char>| jstr_at(s@, pos as int, t) implies ({
                        let m = out0.len() as int;
                        val == t[m] as u32 && val < 0x20 && val != 0x0a && val != 0x0d
                            && val != 0x09
                    }) by {
                        let m = out0.len() as int;
                        let cv = t[m] as u32;
                        assert(s@[j0 + 4] == hex_digit((cv / 16) as nat));
                        assert(s@[j0 + 5] == hex_digit((cv % 16) as nat));
                        lemma_hex_digit_injective(h1 as nat, (cv / 16) as nat);
                        lemma_hex_digit_injective(h2 as nat, (cv % 16) as nat);
                        vstd::utf8::char_u32_cast(t[m], cv);
                        vstd::utf8::char_u32_cast('\n', '\n' as u32);
                        vstd::utf8::char_u32_cast('\r', '\r' as u32);
                        vstd::utf8::char_u32_cast('\t', '\t' as u32);
                    }
                }
                if val >= 0x20 || val == 0x0a || val == 0x0d || val == 0x09 {
                    proof {
                        assert forall|t: Seq<char>| !jstr_at(s@, pos as int, t) by {
                            if jstr_at(s@, pos as int, t) {}
                        }
                    }
                    return None;
                }
                dec = (val as u8) as char;
                proof {
                    assert((dec as u32) == val);
                    assert(val / 16 == h1 && val % 16 == h2);
                }
                j = j + 6;
            } else {
                proof {
                    assert forall|t: Seq<char>| !jstr_at(s@, pos as int, t) by {
                        if jstr_at(s@, pos as int, t) {
                            let m = out0.len() as int;
                            assert(s@[j0 + 1] == esc_char(t[m])[1]);
                        }
                    }
                }
                return None;
            }
            proof {
                assert(s@.subrange(j0, j as int) =~= esc_char(dec));
            }
            push_char(&mut out, dec);
            proof {
                assert(out@.drop_last() =~= out0);
                assert(out@.last() == dec);
                assert(esc_str(out@) =~= esc_str(out0) + esc_char(dec));
                assert(s@.subrange(pos + 1, j as int) =~= s@.subrange(pos + 1, j0)
                    + s@.subrange(j0, j as int));
                assert forall|t: Seq<char>| jstr_at(s@, pos as int, t) implies out@ == t.take(
                    out@.len() as int,
                ) && out@.len() <= t.len() && j == pos + 1 + esc_str(out@).len() by {
                    let m = out0.len() as int;
                    assert(dec == t[m]) by {
                        // the decoded character is dictated by the escape
                        let ec = esc_char(t[m]);
                        assert(s@.subrange(j0, j0 + ec.len() as int) =~= ec);
                        assert(esc_char(dec) =~= ec);
                        lemma_esc_injective_char(dec, t[m]);
                    }
                    assert(out@ =~= t.take(m + 1));
                    lemma_esc_take_succ(t, m);
                }
            }
        } else {
            proof {
                assert forall|t: Seq<char>| jstr_at(s@, pos as int, t) implies out0.len()
                    < t.len() && esc_char(t[out0.len() as int]) =~= seq![c]
                    && (c as u32) >= 0x20 by {
                    let m = out0.len() as int;
                    if m == t.len() {
                        assert(s@[j as int] == '"');
                    }
                    lemma_esc_char_shape(t[m]);
                    assert(esc_char(t[m])[0] == s@[j as int]);
                    // a first character that is neither quote nor
                    // backslash marks the unescaped case
                    vstd::utf8::char_u32_cast(t[m], t[m] as u32);
                    vstd::utf8::char_u32_cast('\\', '\\' as u32);
                    if t[m] == '"' || t[m] == '\\' || t[m] == '\n' || t[m] == '\r'
                        || t[m] == '\t' || (t[m] as u32) < 0x20 {
                        assert(esc_char(t[m])[0] == '\\');
                    }
                }
            }
            if (c as u32) < 0x20 {
                proof {
                    assert forall|t: Seq<char>| !jstr_at(s@, pos as int, t) by {
                        if jstr_at(s@, pos as int, t) {}
                    }
                }
                return None;
            }
            let ghost j0 = j as int;
            push_char(&mut out, c);
            j = j + 1;
            proof {
                assert(out@.drop_last() =~= out0);
                assert(out@.last() == c);
                assert(esc_char(c) =~= seq![c]);
                assert(esc_str(out@) =~= esc_str(out0) + esc_char(c));
                assert(s@.subrange(pos + 1, j as int) =~= s@.subrange(pos + 1, j0)
                    + seq![c]);
                assert forall|t: Seq<char>| jstr_at(s@, pos as int, t) implies out@ == t.take(
                    out@.len() as int,
                ) && out@.len() <= t.len() && j == pos + 1 + esc_str(out@).len() by {
                    let m = out0.len() as int;
                    assert(c == t[m]) by {
                        assert(esc_char(t[m])[0] == c);
                        assert(esc_char(t[m]) =~= seq![t[m]]);
                    }
                    assert(out@ =~= t.take(m + 1));
                    lemma_esc_take_succ(t, m);
                }
            }
        }
    }
    proof {
        assert forall|t: Seq<char>| !jstr_at(s@, pos as int, t) by {
            if jstr_at(s@, pos as int, t) {
                assert(j == pos + 1 + esc_str(out@).len());
                assert(pos + json_string(t).len() <= slen);
                assert(esc_str(out@) == esc_str(t.take(out@.len() as int)));
                lemma_esc_take_prefix(t, out@.len() as int);
            }
        }
    }
    None
}

/// Two characters with the same escape are the same character.
proof fn lemma_esc_injective_char(a: char, b: char)
    requires
        esc_char(a) == esc_char(b),
    ensures
        a == b,
{
    vstd::utf8::char_u32_cast(a, a as u32);
    vstd::utf8::char_u32_cast(b, b as u32);
    assert(esc_char(a).len() == esc_char(b).len());
    if a == '"' || a == '\\' || a == '\n' || a == '\r' || a == '\t' {
        assert(esc_char(a)[1] == esc_char(b)[1]);
        assert(esc_char(b).len() == 2);
        assert(b == '"' || b == '\\' || b == '\n' || b == '\r' || b == '\t') by {
            if b == '"' || b == '\\' || b == '\n' || b == '\r' || b == '\t' {
            } else if (b as u32) < 0x20 {
                assert(esc_char(b).len() == 6);
            } else {
                assert(esc_char(b).len() == 1);
            }
        }
        if a == '"' { assert(esc_char(a)[1] == '"'); }
        else if a == '\\' { assert(esc_char(a)[1] == '\\'); }
        else if a == '\n' { assert(esc_char(a)[1] == 'n'); }
        else if a == '\r' { assert(esc_char(a)[1] == 'r'); }
        else { assert(esc_char(a)[1] == 't'); }
        if b == '"' { assert(esc_char(b)[1] == '"'); }
        else if b == '\\' { assert(esc_char(b)[1] == '\\'); }
        else if b == '\n' { assert(esc_char(b)[1] == 'n'); }
        else if b == '\r' { assert(esc_char(b)[1] == 'r'); }
        else { assert(esc_char(b)[1] == 't'); }
        assert(a == b);
    } else if (a as u32) < 0x20 {
        assert(esc_char(b).len() == 6);
        assert(esc_char(a)[4] == esc_char(b)[4]);
        assert(esc_char(a)[5] == esc_char(b)[5]);
        lemma_hex_digit_injective(((a as u32) / 16) as nat, ((b as u32) / 16) as nat);
        lemma_hex_digit_injective(((a as u32) % 16) as nat, ((b as u32) % 16) as nat);
        assert((a as u32) / 16 * 16 + (a as u32) % 16 == (a as u32));
        assert((b as u32) / 16 * 16 + (b as u32) % 16 == (b as u32));
        assert((a as u32) == (b as u32));
        assert(a == b);
    } else {
        assert(esc_char(a) == seq![a]);
        assert(esc_char(b).len() == 1);
        assert(b != '"' && b != '\\' && b != '\n' && b != '\r' && b != '\t') by {
            if b == '"' || b == '\\' || b == '\n' || b == '\r' || b == '\t' {
                assert(esc_char(b).len() == 2);
            }
        }
        assert((b as u32) >= 0x20) by {
            if (b as u32) < 0x20 {
                assert(esc_char(b).len() == 6);
            }
        }
        assert(esc_char(b) == seq![b]);
        assert(seq![a] == seq![b]);
        assert(seq![a][0] == a);
        assert(seq![b][0] == b);
        assert(a == b);
    }
}

/// Listing one more item appends a separator (after the first) and
/// the item's token.
proof fn lemma_items_take_succ(vs: Seq<Seq<char>>, k: int)
    requires
        0 <= k < vs.len(),
    ensures
        enc_str_items(vs.take(k + 1)) == if k == 0 {
            json_string(vs[0])
        } else {
            enc_str_items(vs.take(k)) + seq![','] + json_string(vs[k])
        },
{
    assert(vs.take(k + 1).drop_last() =~= vs.take(k));
    assert(vs.take(k + 1).last() == vs[k]);
}

/// The listing of a prefix is a prefix of the listing.
proof fn lemma_items_take_prefix(vs: Seq<Seq<char>>, k: int)
    requires
        0 <= k <= vs.len(),
    ensures
        enc_str_items(vs.take(k)).len() <= enc_str_items(vs).len(),
        enc_str_items(vs).take(enc_str_items(vs.take(k)).len() as int)
            == enc_str_items(vs.take(k)),
    decreases vs.len() - k,
{
    if k == vs.len() {
        assert(vs.take(k) =~= vs);
        assert(enc_str_items(vs).take(enc_str_items(vs).len() as int) =~= enc_str_items(vs));
    } else {
        lemma_items_take_prefix(vs, k + 1);
        lemma_items_take_succ(vs, k);
        assert(enc_str_items(vs).take(enc_str_items(vs.take(k)).len() as int)
            =~= enc_str_items(vs.take(k)));
    }
}

/// Whether the text at `pos` is the JSON array of the strings `vs`.
pub open spec fn list_at(s: Seq<char>, pos: int, vs: Seq<Seq<char>>) -> bool {
    &&& pos + enc_str_list(vs).len() <= s.len()
    &&& s.subrange(pos, pos + enc_str_list(vs).len()) == enc_str_list(vs)
}

/// What the array of `vs` dictates at item position `k`: the next
/// characters are a separator and the item's token, or the closing
/// bracket.
proof fn lemma_list_step(s: Seq<char>, pos: int, vs: Seq<Seq<char>>, k: int)
    requires
        0 <= pos,
        list_at(s, pos, vs),
        0 <= k <= vs.len(),
    ensures
        k == vs.len() ==> s[pos + 1 + enc_str_items(vs).len()] == ']',
        k == vs.len() ==> enc_str_items(vs.take(k)) == enc_str_items(vs),
        k < vs.len() && k > 0 ==> s[pos + 1 + enc_str_items(vs.take(k)).len()] == ','
            && jstr_at(s, pos + 2 + enc_str_items(vs.take(k)).len(), vs[k]),
        k == 0 && k < vs.len() ==> jstr_at(s, pos + 1, vs[0]),
{
    let ll = enc_str_list(vs).len() as int;
    assert forall|i: int| 0 <= i < ll implies s[pos + i] == enc_str_list(vs)[i] by {
        assert(s.subrange(pos, pos + ll)[i] == enc_str_list(vs)[i]);
    }
    assert(forall|i: int|
        0 <= i < enc_str_items(vs).len() ==> enc_str_list(vs)[1 + i] == enc_str_items(vs)[i]);
    assert forall|i: int| 0 <= i < enc_str_items(vs).len() implies s[pos + 1 + i]
        == enc_str_items(vs)[i] by {
        assert(s[pos + (1 + i)] == enc_str_list(vs)[1 + i]);
    }
    if k == vs.len() {
        assert(vs.take(k) =~= vs);
        assert(enc_str_list(vs)[1 + enc_str_items(vs).len() as int] == ']');
    } else {
        lemma_items_take_prefix(vs, k + 1);
        lemma_items_take_succ(vs, k);
        let lk = enc_str_items(vs.take(k)).len() as int;
        let jl = json_string(vs[k]).len() as int;
        if k == 0 {
            assert(enc_str_items(vs.take(0)) =~= Seq::<char>::empty());
            assert forall|q: int| 0 <= q < jl implies s[pos + 1 + q]
                == json_string(vs[0])[q] by {
                assert(enc_str_items(vs)[q] == enc_str_items(vs).take(
                    enc_str_items(vs.take(1)).len() as int,
                )[q]);
                assert(enc_str_items(vs.take(1))[q] == json_string(vs[0])[q]);
            }
            assert(s.subrange(pos + 1, pos + 1 + jl) =~= json_string(vs[0]));
        } else {
            assert(s[pos + 1 + lk] == ',') by {
                assert(s[pos + 1 + lk] == enc_str_items(vs)[lk]);
                assert(enc_str_items(vs)[lk] == enc_str_items(vs).take(
                    enc_str_items(vs.take(k + 1)).len() as int,
                )[lk]);
                assert(enc_str_items(vs.take(k + 1))[lk]
                    == (seq![','] + json_string(vs[k]))[0]);
            }
            assert forall|q: int| 0 <= q < jl implies s[pos + 2 + lk + q]
                == json_string(vs[k])[q] by {
                let i = lk + 1 + q;
                assert(s[pos + 1 + i] == enc_str_items(vs)[i]);
                assert(enc_str_items(vs)[i] == enc_str_items(vs).take(
                    enc_str_items(vs.take(k + 1)).len() as int,
                )[i]);
                assert(enc_str_items(vs.take(k + 1))[i]
                    == (seq![','] + json_string(vs[k]))[1 + q]);
                assert(pos + 1 + i == pos + 2 + lk + q);
            }
            assert(s.subrange(pos + 2 + lk, pos + 2 + lk + jl) =~= json_string(vs[k]));
        }
    }
}

/// Reads a canonical JSON array of strings at `pos`; a canonical
/// array there is always read back.
fn parse_str_list(s: &str, pos: usize) -> (r: Option<(Vec<String>, usize)>)
    requires
        pos <= s@.len(),
    ensures
        r matches Some(p) ==> pos < p.1 <= s@.len() && s@.subrange(pos as int, p.1 as int)
            == enc_str_list(p.0.deep_view()),
        forall|vs: Seq<Seq<char>>| list_at(s@, pos as int, vs) ==> (r matches Some(p)
            && p.1 == pos + enc_str_list(vs).len()),
{
    let slen = s.unicode_len();
    proof {
        assert forall|vs: Seq<Seq<char>>| list_at(s@, pos as int, vs) implies pos < s@.len()
            && s@[pos as int] == '[' by {
            assert(s@[pos as int] == s@.subrange(
                pos as int,
                pos + enc_str_list(vs).len(),
            )[0]);
        }
    }
    if pos >= slen || s.get_char(pos) != '[' {
        return None;
    }
    let mut xs: Vec<String> = Vec::new();
    let mut j: usize = pos + 1;
    if j < slen && s.get_char(j) == ']' {
        proof {
            assert(xs.deep_view() =~= Seq::<Seq<char>>::empty());
            assert(s@.subrange(pos as int, j + 1) =~= enc_str_list(xs.deep_view()));
            assert forall|vs: Seq<Seq<char>>| list_at(s@, pos as int, vs) implies j + 1 == pos
                + enc_str_list(vs).len() by {
                lemma_list_step(s@, pos as int, vs, 0);
                if vs.len() > 0 {
                    assert(jstr_at(s@, pos + 1, vs[0]));
                    assert(s@[pos + 1] == json_string(vs[0])[0]);
                }
                assert(enc_str_items(vs.take(0)) =~= Seq::<char>::empty());
            }
        }
        return Some((xs, j + 1));
    }
    proof {
        assert forall|vs: Seq<Seq<char>>| list_at(s@, pos as int, vs) implies vs.len() > 0
            && jstr_at(s@, pos + 1, vs[0]) by {
            lemma_list_step(s@, pos as int, vs, 0);
            if vs.len() == 0 {
                assert(enc_str_items(vs.take(0)) =~= Seq::<char>::empty());
                assert(s@[pos + 1] == ']');
                assert(pos + 2 <= s@.len());
            }
        }
    }
    match parse_json_string(s, j) {
        Some((item, p2)) => {
            xs.push(item);
            proof {
                assert(xs.deep_view().len() == 1);
                assert(xs.deep_view()[0] == xs@.last()@);
                assert(enc_str_items(xs.deep_view()) =~= json_string(xs.deep_view()[0]));
                assert forall|vs: Seq<Seq<char>>| list_at(s@, pos as int, vs) implies p2 == pos
                    + 1 + enc_str_items(vs.take(1)).len() by {
                    lemma_items_take_succ(vs, 0);
                }
            }
            j = p2;
        },
        None => {
            proof {
                assert forall|vs: Seq<Seq<char>>| !list_at(s@, pos as int, vs) by {
                    if list_at(s@, pos as int, vs) {}
                }
            }
            return None;
        },
    }
    loop
        invariant
            slen == s@.len(),
            pos < j <= slen,
            s@[pos as int] == '[',
            xs.deep_view().len() >= 1,
            s@.subrange(pos + 1, j as int) == enc_str_items(xs.deep_view()),
            forall|vs: Seq<Seq<char>>| list_at(s@, pos as int, vs) ==> xs.deep_view().len()
                <= vs.len() && j == pos + 1 + enc_str_items(
                vs.take(xs.deep_view().len() as int),
            ).len(),
        decreases slen - j,
    {
        proof {
            assert forall|vs: Seq<Seq<char>>| list_at(s@, pos as int, vs) implies ({
                let k = xs.deep_view().len() as int;
                &&& (k == vs.len() ==> s@[j as int] == ']' && j + 1 == pos
                    + enc_str_list(vs).len() && j < slen)
                &&& (k < vs.len() ==> s@[j as int] == ',' && jstr_at(s@, j + 1, vs[k])
                    && j < slen)
            }) by {
                let k = xs.deep_view().len() as int;
                lemma_list_step(s@, pos as int, vs, k);
                if k == vs.len() {
                    assert(enc_str_items(vs.take(k)) == enc_str_items(vs));
                } else {
                    lemma_items_take_succ(vs, k);
                    lemma_items_take_prefix(vs, k + 1);
                }
            }
        }
        if j >= slen {
            proof {
                assert forall|vs: Seq<Seq<char>>| !list_at(s@, pos as int, vs) by {
                    if list_at(s@, pos as int, vs) {
                        let k = xs.deep_view().len() as int;
                        if k < vs.len() {
                        }
                    }
                }
            }
            return None;
        }
        let c = s.get_char(j);
        if c == ']' {
            proof {
                assert(s@.subrange(pos as int, j + 1) =~= seq!['[']
                    + s@.subrange(pos + 1, j as int) + seq![']']);
                assert forall|vs: Seq<Seq<char>>| list_at(s@, pos as int, vs) implies j + 1
                    == pos + enc_str_list(vs).len() by {
                    let k = xs.deep_view().len() as int;
                    if k < vs.len() {
                        assert(s@[j as int] == ',');
                    }
                }
            }
            return Some((xs, j + 1));
        }
        if c != ',' {
            proof {
                assert forall|vs: Seq<Seq<char>>| !list_at(s@, pos as int, vs) by {
                    if list_at(s@, pos as int, vs) {
                        let k = xs.deep_view().len() as int;
                        if k == vs.len() {
                            assert(s@[j as int] == ']');
                        } else {
                            assert(s@[j as int] == ',');
                        }
                    }
                }
            }
            return None;
        }
        let ghost j0 = j as int;
        let ghost xs0 = xs.deep_view();
        match parse_json_string(s, j + 1) {
            Some((item, p2)) => {
                xs.push(item);
                proof {
                    assert(xs.deep_view().drop_last() =~= xs0);
                    assert(xs.deep_view().last() == xs@.last()@);
                    assert(enc_str_items(xs.deep_view()) =~= enc_str_items(xs0) + seq![',']
                        + json_string(xs.deep_view().last()));
                    assert(s@.subrange(pos + 1, p2 as int) =~= s@.subrange(pos + 1, j0)
                        + seq![s@[j0]] + s@.subrange(j0 + 1, p2 as int));
                    assert forall|vs: Seq<Seq<char>>| list_at(s@, pos as int, vs) implies
                        xs.deep_view().len() <= vs.len() && p2 == pos + 1 + enc_str_items(
                        vs.take(xs.deep_view().len() as int),
                    ).len() by {
                        let k = xs0.len() as int;
                        if k == vs.len() {
                            assert(s@[j0] == ']');
                        }
                        assert(jstr_at(s@, j0 + 1, vs[k]));
                        lemma_items_take_succ(vs, k);
                    }
                }
                j = p2;
            },
            None => {
                proof {
                    assert forall|vs: Seq<Seq<char>>| !list_at(s@, pos as int, vs) by {
                        if list_at(s@, pos as int, vs) {
                            let k = xs0.len() as int;
                            if k == vs.len() {
                                assert(s@[j0] == ']');
                            }
                        }
                    }
                }
                return None;
            },
        }
    }
}

/// Whether the text at `pos` is the JSON text of the metadata value
/// `v` with no digit following it.
pub open spec fn meta_at(s: Seq<char>, pos: int, v: MetaValue) -> bool {
    &&& pos + enc_meta(v).len() <= s.len()
    &&& s.subrange(pos, pos + enc_meta(v).len()) == enc_meta(v)
    &&& (pos + enc_meta(v).len() == s.len() || !crate::text::is_digit_char(
        s[pos + enc_meta(v).len()],
    ))
}

/// Reads one canonical JSON metadata value at `pos`; a canonical value
/// there is always read back.
fn parse_meta(s: &str, pos: usize) -> (r: Option<(MetaValue, usize)>)
    requires
        pos <= s@.len(),
    ensures
        r matches Some(p) ==> pos < p.1 <= s@.len() && s@.subrange(pos as int, p.1 as int)
            == enc_meta(p.0),
        forall|v: MetaValue| meta_at(s@, pos as int, v) ==> (r matches Some(p)
            && p.1 == pos + enc_meta(v).len()),
{
    proof {
        reveal_strlit("true");
        reveal_strlit("false");
        assert forall|v: MetaValue| meta_at(s@, pos as int, v) implies pos < s@.len()
            && s@[pos as int] == enc_meta(v)[0] && enc_meta(v).len() >= 1 by {
            if v is Int {
                crate::text::lemma_dec_digits_len((v->Int_0) as nat);
            }
        }
    }
    let slen = s.unicode_len();
    if pos >= slen {
        return None;
    }
    let c = s.get_char(pos);
    proof {
        assert forall|v: MetaValue| meta_at(s@, pos as int, v) implies match v {
            MetaValue::Text(_) => c == '"',
            MetaValue::Flag(b) => c == (if b { 't' } else { 'f' }),
            MetaValue::Int(_) => crate::text::is_digit_char(c) && c != '"' && c != 't'
                && c != 'f',
        } by {
            match v {
                MetaValue::Text(tv) => {
                    assert(enc_meta(v)[0] == '"');
                },
                MetaValue::Flag(b) => {},
                MetaValue::Int(n) => {
                    crate::text::lemma_dec_digits_len(n as nat);
                    crate::text::lemma_dec_digits_are_digits(n as nat);
                    assert(crate::text::is_digit_char(enc_meta(v)[0]));
                    let d = choose|d: nat| d < 10 && c == digit_char(d);
                    lemma_digit_char_ne(d);
                },
            }
        }
    }
    if c == '"' {
        match parse_json_string(s, pos) {
            Some((t, p2)) => {
                proof {
                    assert forall|v: MetaValue| meta_at(s@, pos as int, v) implies p2 == pos
                        + enc_meta(v).len() by {
                        assert(v is Text);
                        assert(jstr_at(s@, pos as int, (v->Text_0)@));
                    }
                }
                Some((MetaValue::Text(t), p2))
            },
            None => {
                proof {
                    assert forall|v: MetaValue| !meta_at(s@, pos as int, v) by {
                        if meta_at(s@, pos as int, v) {
                            assert(jstr_at(s@, pos as int, (v->Text_0)@));
                        }
                    }
                }
                None
            },
        }
    } else if c == 't' {
        proof {
            assert forall|v: MetaValue| meta_at(s@, pos as int, v) implies v
                == MetaValue::Flag(true) && s@.subrange(pos as int, pos + 4) == "true"@ by {}
        }
        match expect_lit(s, pos, "true") {
            Some(p2) => {
                proof {
                    assert(s@.subrange(pos as int, p2 as int).len() == p2 - pos);
                    assert("true"@.len() == 4);
                }
                Some((MetaValue::Flag(true), p2))
            },
            None => None,
        }
    } else if c == 'f' {
        proof {
            assert forall|v: MetaValue| meta_at(s@, pos as int, v) implies v
                == MetaValue::Flag(false) && s@.subrange(pos as int, pos + 5) == "false"@ by {}
        }
        match expect_lit(s, pos, "false") {
            Some(p2) => {
                proof {
                    assert(s@.subrange(pos as int, p2 as int).len() == p2 - pos);
                    assert("false"@.len() == 5);
                }
                Some((MetaValue::Flag(false), p2))
            },
            None => None,
        }
    } else {
        proof {
            assert forall|v: MetaValue| meta_at(s@, pos as int, v) implies v is Int
                && dec_at(s@, pos as int, v->Int_0) by {}
        }
        match parse_u64(s, pos) {
            Some((v, p2)) => Some((MetaValue::Int(v), p2)),
            None => None,
        }
    }
}

/// The key/value views of a metadata pair list.
pub open spec fn ctx_views(xs: Seq<(String, MetaValue)>) -> Seq<(Seq<char>, MetaValue)> {
    xs.map_values(|p: (String, MetaValue)| (p.0@, p.1))
}

/// Listing one more member appends a separator (after the first), the
/// key's token, a colon, and the value's text.
proof fn lemma_ctx_take_succ(ms: Seq<(Seq<char>, MetaValue)>, k: int)
    requires
        0 <= k < ms.len(),
    ensures
        enc_ctx_items(ms.take(k + 1)) == if k == 0 {
            json_string(ms[0].0) + seq![':'] + enc_meta(ms[0].1)
        } else {
            enc_ctx_items(ms.take(k)) + seq![','] + json_string(ms[k].0) + seq![':']
                + enc_meta(ms[k].1)
        },
{
    assert(ms.take(k + 1).drop_last() =~= ms.take(k));
    assert(ms.take(k + 1).last() == ms[k]);
}

/// The listing of a member prefix is a prefix of the listing.
proof fn lemma_ctx_take_prefix(ms: Seq<(Seq<char>, MetaValue)>, k: int)
    requires
        0 <= k <= ms.len(),
    ensures
        enc_ctx_items(ms.take(k)).len() <= enc_ctx_items(ms).len(),
        enc_ctx_items(ms).take(enc_ctx_items(ms.take(k)).len() as int)
            == enc_ctx_items(ms.take(k)),
    decreases ms.len() - k,
{
    if k == ms.len() {
        assert(ms.take(k) =~= ms);
        assert(enc_ctx_items(ms).take(enc_ctx_items(ms).len() as int) =~= enc_ctx_items(ms));
    } else {
        lemma_ctx_take_prefix(ms, k + 1);
        lemma_ctx_take_succ(ms, k);
        assert(enc_ctx_items(ms).take(enc_ctx_items(ms.take(k)).len() as int)
            =~= enc_ctx_items(ms.take(k)));
    }
}

/// Whether the text at `pos` is the JSON object of the pairs `ms`.
pub open spec fn ctx_at(s: Seq<char>, pos: int, ms: Seq<(Seq<char>, MetaValue)>) -> bool {
    &&& pos + enc_ctx(ms).len() <= s.len()
    &&& s.subrange(pos, pos + enc_ctx(ms).len()) == enc_ctx(ms)
}

/// What the object of `ms` dictates at member position `k`: a
/// separator, the key's token, a colon and the value's text — or the
/// closing brace.
proof fn lemma_ctx_step(s: Seq<char>, pos: int, ms: Seq<(Seq<char>, MetaValue)>, k: int)
    requires
        0 <= pos,
        ctx_at(s, pos, ms),
        0 <= k <= ms.len(),
    ensures
        k == ms.len() ==> s[pos + 1 + enc_ctx_items(ms).len() as int] == '}'
            && enc_ctx_items(ms.take(k)) == enc_ctx_items(ms),
        k < ms.len() ==> ({
            let q = pos + 1 + enc_ctx_items(ms.take(k)).len() + if k > 0 { 1int } else { 0int };
            &&& (k > 0 ==> s[pos + 1 + enc_ctx_items(ms.take(k)).len() as int] == ',')
            &&& jstr_at(s, q, ms[k].0)
            &&& s[q + json_string(ms[k].0).len() as int] == ':'
            &&& meta_at(s, q + json_string(ms[k].0).len() + 1, ms[k].1)
        }),
{
    let cl = enc_ctx(ms).len() as int;
    assert forall|i: int| 0 <= i < cl implies s[pos + i] == enc_ctx(ms)[i] by {
        assert(s.subrange(pos, pos + cl)[i] == enc_ctx(ms)[i]);
    }
    assert(forall|i: int|
        0 <= i < enc_ctx_items(ms).len() ==> enc_ctx(ms)[1 + i] == enc_ctx_items(ms)[i]);
    assert forall|i: int| 0 <= i < enc_ctx_items(ms).len() implies s[pos + 1 + i]
        == enc_ctx_items(ms)[i] by {
        assert(s[pos + (1 + i)] == enc_ctx(ms)[1 + i]);
    }
    if k == ms.len() {
        assert(ms.take(k) =~= ms);
        assert(enc_ctx(ms)[1 + enc_ctx_items(ms).len() as int] == '}');
    } else {
        lemma_ctx_take_prefix(ms, k + 1);
        lemma_ctx_take_succ(ms, k);
        let lk = enc_ctx_items(ms.take(k)).len() as int;
        let member = json_string(ms[k].0) + seq![':'] + enc_meta(ms[k].1);
        let off = if k > 0 { 1int } else { 0int };
        let q = pos + 1 + lk + off;
        // every character of this member, read off the whole listing
        assert forall|w: int| 0 <= w < member.len() implies s[q + w] == member[w] by {
            let i = lk + off + w;
            assert(s[pos + 1 + i] == enc_ctx_items(ms)[i]);
            assert(enc_ctx_items(ms)[i] == enc_ctx_items(ms).take(
                enc_ctx_items(ms.take(k + 1)).len() as int,
            )[i]);
            if k > 0 {
                assert(enc_ctx_items(ms.take(k + 1))[i] == (enc_ctx_items(ms.take(k))
                    + seq![','] + member)[i]);
            }
            assert(pos + 1 + i == q + w);
        }
        if k > 0 {
            assert(s[pos + 1 + lk] == ',') by {
                assert(s[pos + 1 + lk] == enc_ctx_items(ms)[lk]);
                assert(enc_ctx_items(ms)[lk] == enc_ctx_items(ms).take(
                    enc_ctx_items(ms.take(k + 1)).len() as int,
                )[lk]);
            }
        }
        let jl = json_string(ms[k].0).len() as int;
        let ml = enc_meta(ms[k].1).len() as int;
        assert forall|w: int| 0 <= w < jl implies s[q + w] == json_string(ms[k].0)[w] by {
            assert(s[q + w] == member[w]);
            assert(member[w] == json_string(ms[k].0)[w]);
        }
        assert(s.subrange(q, q + jl) =~= json_string(ms[k].0));
        assert(s[q + jl] == ':') by {
            assert(member[jl] == ':');
        }
        assert forall|w: int| 0 <= w < ml implies s[q + jl + 1 + w] == enc_meta(ms[k].1)[w] by {
            assert(s[q + (jl + 1 + w)] == member[jl + 1 + w]);
            assert(member[jl + 1 + w] == enc_meta(ms[k].1)[w]);
            assert(q + (jl + 1 + w) == q + jl + 1 + w);
        }
        assert(s.subrange(q + jl + 1, q + jl + 1 + ml) =~= enc_meta(ms[k].1));
        // the character after the value is a separator or the brace,
        // never a digit
        let after = q + jl + 1 + ml;
        assert(after == pos + 1 + enc_ctx_items(ms.take(k + 1)).len());
        if k + 1 == ms.len() {
            assert(enc_ctx_items(ms.take(k + 1)) == enc_ctx_items(ms)) by {
                assert(ms.take(k + 1) =~= ms);
            }
            assert(s[after] == '}') by {
                assert(s[pos + (1 + enc_ctx_items(ms).len() as int)]
                    == enc_ctx(ms)[1 + enc_ctx_items(ms).len() as int]);
                assert(enc_ctx(ms)[1 + enc_ctx_items(ms).len() as int] == '}');
                assert(after == pos + (1 + enc_ctx_items(ms).len() as int));
            }
            lemma_not_digit_char('}');
        } else {
            lemma_ctx_take_prefix(ms, k + 2);
            lemma_ctx_take_succ(ms, k + 1);
            let lk1 = enc_ctx_items(ms.take(k + 1)).len() as int;
            assert(s[after] == ',') by {
                assert(s[pos + 1 + lk1] == enc_ctx_items(ms)[lk1]);
                assert(enc_ctx_items(ms)[lk1] == enc_ctx_items(ms).take(
                    enc_ctx_items(ms.take(k + 2)).len() as int,
                )[lk1]);
            }
            lemma_not_digit_char(',');
        }
        assert(meta_at(s, q + jl + 1, ms[k].1));
    }
}

/// Reads a canonical JSON metadata object at `pos`; a canonical object
/// there is always read back.
fn parse_ctx(s: &str, pos: usize) -> (r: Option<(Vec<(String, MetaValue)>, usize)>)
    requires
        pos <= s@.len(),
    ensures
        r matches Some(p) ==> pos < p.1 <= s@.len() && s@.subrange(pos as int, p.1 as int)
            == enc_ctx(ctx_views(p.0@)),
        forall|ms: Seq<(Seq<char>, MetaValue)>| ctx_at(s@, pos as int, ms) ==> (r matches Some(p)
            && p.1 == pos + enc_ctx(ms).len()),
{
    let slen = s.unicode_len();
    proof {
        assert forall|ms: Seq<(Seq<char>, MetaValue)>| ctx_at(s@, pos as int, ms) implies pos
            < s@.len() && s@[pos as int] == '{' by {
            assert(s@[pos as int] == s@.subrange(pos as int, pos + enc_ctx(ms).len())[0]);
        }
    }
    if pos >= slen || s.get_char(pos) != '{' {
        return None;
    }
    let mut xs: Vec<(String, MetaValue)> = Vec::new();
    let mut j: usize = pos + 1;
    if j < slen && s.get_char(j) == '}' {
        proof {
            assert(ctx_views(xs@) =~= Seq::<(Seq<char>, MetaValue)>::empty());
            assert(s@.subrange(pos as int, j + 1) =~= enc_ctx(ctx_views(xs@)));
            assert forall|ms: Seq<(Seq<char>, MetaValue)>| ctx_at(s@, pos as int, ms) implies j
                + 1 == pos + enc_ctx(ms).len() by {
                lemma_ctx_step(s@, pos as int, ms, 0);
                if ms.len() > 0 {
                    assert(enc_ctx_items(ms.take(0)) =~= Seq::<char>::empty());
                    assert(jstr_at(s@, pos + 1, ms[0].0));
                    assert(s@[pos + 1] == json_string(ms[0].0)[0]);
                }
            }
        }
        return Some((xs, j + 1));
    }
    proof {
        assert forall|ms: Seq<(Seq<char>, MetaValue)>| ctx_at(s@, pos as int, ms) implies
            ms.len() > 0 by {
            if ms.len() == 0 {
                assert(enc_ctx_items(ms) =~= Seq::<char>::empty());
                assert(s@[pos + 1] == enc_ctx(ms)[1]);
                assert(pos + 2 <= s@.len());
            }
        }
    }
    let mut first: bool = true;
    loop
        invariant
            slen == s@.len(),
            pos < j <= slen,
            s@[pos as int] == '{',
            first ==> j == pos + 1 && xs@.len() == 0,
            !first ==> xs@.len() >= 1,
            s@.subrange(pos + 1, j as int) == enc_ctx_items(ctx_views(xs@)),
            forall|ms: Seq<(Seq<char>, MetaValue)>| ctx_at(s@, pos as int, ms)
                ==> ms.len() > 0 && xs@.len() <= ms.len() && j == pos + 1 + enc_ctx_items(
                ms.take(xs@.len() as int),
            ).len(),
        decreases slen - j + (if first { 1int } else { 0int }),
    {
        proof {
            assert forall|ms: Seq<(Seq<char>, MetaValue)>| ctx_at(s@, pos as int, ms) implies ({
                let k = xs@.len() as int;
                &&& (k == ms.len() ==> s@[j as int] == '}' && j + 1 == pos
                    + enc_ctx(ms).len() && j < slen)
                &&& (k < ms.len() && k > 0 ==> s@[j as int] == ',' && j < slen)
            }) by {
                let k = xs@.len() as int;
                lemma_ctx_step(s@, pos as int, ms, k);
            }
        }
        if !first {
            if j >= slen {
                proof {
                    assert forall|ms: Seq<(Seq<char>, MetaValue)>| !ctx_at(
                        s@,
                        pos as int,
                        ms,
                    ) by {
                        if ctx_at(s@, pos as int, ms) {}
                    }
                }
                return None;
            }
            let c = s.get_char(j);
            if c == '}' {
                proof {
                    assert(s@.subrange(pos as int, j + 1) =~= seq!['{']
                        + s@.subrange(pos + 1, j as int) + seq!['}']);
                    assert forall|ms: Seq<(Seq<char>, MetaValue)>| ctx_at(s@, pos as int, ms)
                        implies j + 1 == pos + enc_ctx(ms).len() by {
                        let k = xs@.len() as int;
                        if k < ms.len() {
                            assert(s@[j as int] == ',');
                        }
                    }
                }
                return Some((xs, j + 1));
            }
            if c != ',' {
                proof {
                    assert forall|ms: Seq<(Seq<char>, MetaValue)>| !ctx_at(
                        s@,
                        pos as int,
                        ms,
                    ) by {
                        if ctx_at(s@, pos as int, ms) {
                            let k = xs@.len() as int;
                            if k == ms.len() {
                                assert(s@[j as int] == '}');
                            } else {
                                assert(s@[j as int] == ',');
                            }
                        }
                    }
                }
                return None;
            }
            j = j + 1;
        }
        let ghost sep = !first;
        let ghost j0 = j as int;
        let ghost xs0 = ctx_views(xs@);
        proof {
            assert forall|ms: Seq<(Seq<char>, MetaValue)>| ctx_at(s@, pos as int, ms) implies ({
                let k = xs@.len() as int;
                &&& k < ms.len()
                &&& jstr_at(s@, j as int, ms[k].0)
            }) by {
                let k = xs@.len() as int;
                if k == ms.len() {
                    assert(s@[j0 - 1] == '}');
                }
                lemma_ctx_step(s@, pos as int, ms, k);
            }
        }
        let (key, pk) = match parse_json_string(s, j) {
            Some(x) => x,
            None => {
                proof {
                    assert forall|ms: Seq<(Seq<char>, MetaValue)>| !ctx_at(
                        s@,
                        pos as int,
                        ms,
                    ) by {
                        if ctx_at(s@, pos as int, ms) {}
                    }
                }
                return None;
            },
        };
        proof {
            assert forall|ms: Seq<(Seq<char>, MetaValue)>| ctx_at(s@, pos as int, ms) implies ({
                let k = xs@.len() as int;
                &&& pk == j0 + json_string(ms[k].0).len()
                &&& pk < slen
                &&& s@[pk as int] == ':'
                &&& meta_at(s@, pk + 1, ms[k].1)
            }) by {
                let k = xs@.len() as int;
                lemma_ctx_step(s@, pos as int, ms, k);
            }
        }
        if pk >= slen || s.get_char(pk) != ':' {
            proof {
                assert forall|ms: Seq<(Seq<char>, MetaValue)>| !ctx_at(s@, pos as int, ms) by {
                    if ctx_at(s@, pos as int, ms) {}
                }
            }
            return None;
        }
        match parse_meta(s, pk + 1) {
            Some((v, p2)) => {
                let ghost kview = key@;
                xs.push((key, v));
                proof {
                    assert(ctx_views(xs@).drop_last() =~= xs0);
                    assert(ctx_views(xs@).last() == (kview, v));
                    assert(s@.subrange(j0, p2 as int) =~= s@.subrange(j0, pk as int)
                        + seq![s@[pk as int]] + s@.subrange(pk + 1, p2 as int));
                    assert(s@.subrange(j0, p2 as int) =~= json_string(kview) + seq![':']
                        + enc_meta(v));
                    if sep {
                        assert(enc_ctx_items(ctx_views(xs@)) =~= enc_ctx_items(xs0)
                            + seq![','] + json_string(kview) + seq![':'] + enc_meta(v));
                        assert(s@.subrange(pos + 1, p2 as int) =~= s@.subrange(
                            pos + 1,
                            j0 - 1,
                        ) + seq![s@[j0 - 1]] + s@.subrange(j0, p2 as int));
                    } else {
                        assert(enc_ctx_items(ctx_views(xs@)) =~= json_string(kview)
                            + seq![':'] + enc_meta(v));
                        assert(s@.subrange(pos + 1, p2 as int) =~= s@.subrange(j0, p2 as int));
                    }
                    assert forall|ms: Seq<(Seq<char>, MetaValue)>| ctx_at(s@, pos as int, ms)
                        implies xs@.len() <= ms.len() && p2 == pos + 1 + enc_ctx_items(
                        ms.take(xs@.len() as int),
                    ).len() by {
                        let k = xs0.len() as int;
                        lemma_ctx_take_succ(ms, k);
                    }
                }
                j = p2;
            },
            None => {
                proof {
                    assert forall|ms: Seq<(Seq<char>, MetaValue)>| !ctx_at(
                        s@,
                        pos as int,
                        ms,
                    ) by {
                        if ctx_at(s@, pos as int, ms) {}
                    }
                }
                return None;
            },
        }
        first = false;
    }
}

/// Whether the text at `pos` is the canonical text of the event `e`.
pub open spec fn ev_at(s: Seq<char>, pos: int, e: LogEvent) -> bool {
    &&& pos + enc_event(e).len() <= s.len()
    &&& s.subrange(pos, pos + enc_event(e).len()) == enc_event(e)
}

/// Lifts a segment of a matched text to its position in `s`.
proof fn lemma_seg(s: Seq<char>, pos: int, whole: Seq<char>, a: int, seg: Seq<char>)
    requires
        0 <= pos,
        pos + whole.len() <= s.len(),
        s.subrange(pos, pos + whole.len()) == whole,
        0 <= a,
        a + seg.len() <= whole.len(),
        whole.subrange(a, a + seg.len()) == seg,
    ensures
        s.subrange(pos + a, pos + a + seg.len()) == seg,
        pos + a + seg.len() <= s.len(),
{
    assert forall|w: int| 0 <= w < seg.len() implies s.subrange(
        pos + a,
        pos + a + seg.len(),
    )[w] == seg[w] by {
        assert(s[pos + (a + w)] == s.subrange(pos, pos + whole.len())[a + w]);
        assert(whole[a + w] == whole.subrange(a, a + seg.len())[w]);
        assert(pos + a + w == pos + (a + w));
    }
    assert(s.subrange(pos + a, pos + a + seg.len()) =~= seg);
}

/// Reads one character of a matched text at its position in `s`.
proof fn lemma_seg_char(s: Seq<char>, pos: int, whole: Seq<char>, a: int)
    requires
        0 <= pos,
        pos + whole.len() <= s.len(),
        s.subrange(pos, pos + whole.len()) == whole,
        0 <= a < whole.len(),
    ensures
        s[pos + a] == whole[a],
{
    assert(s[pos + a] == s.subrange(pos, pos + whole.len())[a]);
}

/// Two texts that both start at `pos` agree at every shared index; at
/// an index where they visibly differ, that is a contradiction.
proof fn lemma_lit_clash(s: Seq<char>, pos: int, matched: Seq<char>, actual: Seq<char>, d: int)
    requires
        0 <= pos,
        0 <= d < matched.len(),
        d < actual.len(),
        pos + matched.len() <= s.len(),
        pos + actual.len() <= s.len(),
        s.subrange(pos, pos + matched.len()) == matched,
        s.subrange(pos, pos + actual.len()) == actual,
    ensures
        matched[d] == actual[d],
{
    lemma_seg_char(s, pos, matched, d);
    lemma_seg_char(s, pos, actual, d);
}

/// Reads a `JobStarted` payload after its matched type header.
#[verifier::rlimit(100)]
#[verifier::spinoff_prover]
fn parse_ev_job_started(s: &str, pos: usize, p1: usize) -> (r: Option<(LogEvent, usize)>)
    requires
        pos <= p1 <= s@.len(),
        s@.subrange(pos as int, p1 as int) == "{\"type\":\"JobStarted\",\"models\":"@,
        p1 == pos + "{\"type\":\"JobStarted\",\"models\":"@.len(),
    ensures
        r matches Some(p) ==> pos < p.1 <= s@.len() && s@.subrange(pos as int, p.1 as int)
            == enc_event(p.0),
        forall|e: LogEvent| ev_at(s@, pos as int, e) && e is JobStarted ==> (r matches Some(p)
            && p.1 == pos + enc_event(e).len()),
{
    proof {
        assert forall|e: LogEvent| ev_at(s@, pos as int, e) && e is JobStarted implies ({
            let a = enc_str_list(e->JobStarted_models.deep_view());
            let b = dec_digits(e->JobStarted_prompts as nat);
            let c = enc_str_list(e->JobStarted_metrics.deep_view());
            let q1 = p1 as int;
            let q2 = q1 + a.len();
            let q3 = q2 + ",\"prompts\":"@.len();
            let q4 = q3 + b.len();
            let q5 = q4 + ",\"metrics\":"@.len();
            let q6 = q5 + c.len();
            &&& list_at(s@, q1, e->JobStarted_models.deep_view())
            &&& s@.subrange(q2, q3) == ",\"prompts\":"@
            &&& dec_at(s@, q3, e->JobStarted_prompts as u64)
            &&& s@.subrange(q4, q5) == ",\"metrics\":"@
            &&& list_at(s@, q5, e->JobStarted_metrics.deep_view())
            &&& s@.subrange(q6, q6 + 1) == "}"@
            &&& pos + enc_event(e).len() == q6 + 1
        }) by {
            reveal_strlit("}");
            let whole = enc_event(e);
            let a = enc_str_list(e->JobStarted_models.deep_view());
            let b = dec_digits(e->JobStarted_prompts as nat);
            let c = enc_str_list(e->JobStarted_metrics.deep_view());
            let l1 = "{\"type\":\"JobStarted\",\"models\":"@.len() as int;
            let l2 = ",\"prompts\":"@.len() as int;
            let l3 = ",\"metrics\":"@.len() as int;
            let a1 = l1;
            let a2 = a1 + a.len();
            let a3 = a2 + l2;
            let a4 = a3 + b.len();
            let a5 = a4 + l3;
            let a6 = a5 + c.len();
            assert(whole.subrange(a1, a2 as int) =~= a);
            assert(whole.subrange(a2, a3) =~= ",\"prompts\":"@);
            assert(whole.subrange(a3, a4 as int) =~= b);
            assert(whole.subrange(a4, a5) =~= ",\"metrics\":"@);
            assert(whole.subrange(a5, a6 as int) =~= c);
            assert(whole.subrange(a6, a6 + 1) =~= "}"@);
            lemma_seg(s@, pos as int, whole, a1, a);
            lemma_seg(s@, pos as int, whole, a2, ",\"prompts\":"@);
            lemma_seg(s@, pos as int, whole, a3, b);
            lemma_seg(s@, pos as int, whole, a4, ",\"metrics\":"@);
            lemma_seg(s@, pos as int, whole, a5, c);
            lemma_seg(s@, pos as int, whole, a6, "}"@);
            lemma_seg_char(s@, pos as int, whole, a4);
            reveal_strlit(",\"metrics\":");
            assert(whole[a4] == ',');
            lemma_not_digit_char(',');
            assert(dec_digits((e->JobStarted_prompts as u64) as nat) == b);
        }
    }
    let (models, p2) = match parse_str_list(s, p1) {
        Some(x) => x,
        None => {
            proof {
                assert forall|e: LogEvent| !(ev_at(s@, pos as int, e) && e is JobStarted) by {
                    if ev_at(s@, pos as int, e) && e is JobStarted {}
                }
            }
            return None;
        },
    };
    let p3 = match expect_lit(s, p2, ",\"prompts\":") {
        Some(x) => x,
        None => {
            proof {
                assert forall|e: LogEvent| !(ev_at(s@, pos as int, e) && e is JobStarted) by {
                    if ev_at(s@, pos as int, e) && e is JobStarted {}
                }
            }
            return None;
        },
    };
    let (prompts64, p4) = match parse_u64(s, p3) {
        Some(x) => x,
        None => {
            proof {
                assert forall|e: LogEvent| !(ev_at(s@, pos as int, e) && e is JobStarted) by {
                    if ev_at(s@, pos as int, e) && e is JobStarted {}
                }
            }
            return None;
        },
    };
    if prompts64 > usize::MAX as u64 {
        proof {
            assert forall|e: LogEvent| !(ev_at(s@, pos as int, e) && e is JobStarted) by {
                if ev_at(s@, pos as int, e) && e is JobStarted {}
            }
        }
        return None;
    }
    let p5 = match expect_lit(s, p4, ",\"metrics\":") {
        Some(x) => x,
        None => {
            proof {
                assert forall|e: LogEvent| !(ev_at(s@, pos as int, e) && e is JobStarted) by {
                    if ev_at(s@, pos as int, e) && e is JobStarted {}
                }
            }
            return None;
        },
    };
    let (metrics, p6) = match parse_str_list(s, p5) {
        Some(x) => x,
        None => {
            proof {
                assert forall|e: LogEvent| !(ev_at(s@, pos as int, e) && e is JobStarted) by {
                    if ev_at(s@, pos as int, e) && e is JobStarted {}
                }
            }
            return None;
        },
    };
    let p7 = match expect_lit(s, p6, "}") {
        Some(x) => x,
        None => {
            proof {
                assert forall|e: LogEvent| !(ev_at(s@, pos as int, e) && e is JobStarted) by {
                    if ev_at(s@, pos as int, e) && e is JobStarted {}
                }
            }
            return None;
        },
    };
    let out = LogEvent::JobStarted { models, prompts: prompts64 as usize, metrics };
    proof {
        assert(s@.subrange(pos as int, p7 as int) =~= enc_event(out));
        assert forall|e: LogEvent| ev_at(s@, pos as int, e) && e is JobStarted implies p7
            == pos + enc_event(e).len() by {}
    }
    Some((out, p7))
}

/// Reads a `ModelStarted` payload after its matched type header.
fn parse_ev_model_started(s: &str, pos: usize, p1: usize) -> (r: Option<(LogEvent, usize)>)
    requires
        pos <= p1 <= s@.len(),
        s@.subrange(pos as int, p1 as int) == "{\"type\":\"ModelStarted\",\"model_id\":"@,
        p1 == pos + "{\"type\":\"ModelStarted\",\"model_id\":"@.len(),
    ensures
        r matches Some(p) ==> pos < p.1 <= s@.len() && s@.subrange(pos as int, p.1 as int)
            == enc_event(p.0),
        forall|e: LogEvent| ev_at(s@, pos as int, e) && e is ModelStarted ==> (r matches Some(p)
            && p.1 == pos + enc_event(e).len()),
{
    proof {
        assert forall|e: LogEvent| ev_at(s@, pos as int, e) && e is ModelStarted implies ({
            let a = json_string(e->ModelStarted_model_id@);
            let b = json_string(e->ModelStarted_provider@);
            let q1 = p1 as int;
            let q2 = q1 + a.len();
            let q3 = q2 + ",\"provider\":"@.len();
            let q4 = q3 + b.len();
            &&& jstr_at(s@, q1, e->ModelStarted_model_id@)
            &&& s@.subrange(q2, q3) == ",\"provider\":"@
            &&& jstr_at(s@, q3, e->ModelStarted_provider@)
            &&& s@.subrange(q4, q4 + 1) == "}"@
            &&& pos + enc_event(e).len() == q4 + 1
        }) by {
            reveal_strlit("}");
            let whole = enc_event(e);
            let a = json_string(e->ModelStarted_model_id@);
            let b = json_string(e->ModelStarted_provider@);
            let l1 = "{\"type\":\"ModelStarted\",\"model_id\":"@.len() as int;
            let l2 = ",\"provider\":"@.len() as int;
            let a1 = l1;
            let a2 = a1 + a.len();
            let a3 = a2 + l2;
            let a4 = a3 + b.len();
            assert(whole.subrange(a1, a2 as int) =~= a);
            assert(whole.subrange(a2, a3) =~= ",\"provider\":"@);
            assert(whole.subrange(a3, a4 as int) =~= b);
            assert(whole.subrange(a4, a4 + 1) =~= "}"@);
            lemma_seg(s@, pos as int, whole, a1, a);
            lemma_seg(s@, pos as int, whole, a2, ",\"provider\":"@);
            lemma_seg(s@, pos as int, whole, a3, b);
            lemma_seg(s@, pos as int, whole, a4, "}"@);
        }
    }
    let (model_id, p2) = match parse_json_string(s, p1) {
        Some(x) => x,
        None => {
            proof {
                assert forall|e: LogEvent| !(ev_at(s@, pos as int, e) && e is ModelStarted) by {
                    if ev_at(s@, pos as int, e) && e is ModelStarted {}
                }
            }
            return None;
        },
    };
    let p3 = match expect_lit(s, p2, ",\"provider\":") {
        Some(x) => x,
        None => {
            proof {
                assert forall|e: LogEvent| !(ev_at(s@, pos as int, e) && e is ModelStarted) by {
                    if ev_at(s@, pos as int, e) && e is ModelStarted {}
                }
            }
            return None;
        },
    };
    let (provider, p4) = match parse_json_string(s, p3) {
        Some(x) => x,
        None => {
            proof {
                assert forall|e: LogEvent| !(ev_at(s@, pos as int, e) && e is ModelStarted) by {
                    if ev_at(s@, pos as int, e) && e is ModelStarted {}
                }
            }
            return None;
        },
    };
    let p5 = match expect_lit(s, p4, "}") {
        Some(x) => x,
        None => {
            proof {
                assert forall|e: LogEvent| !(ev_at(s@, pos as int, e) && e is ModelStarted) by {
                    if ev_at(s@, pos as int, e) && e is ModelStarted {}
                }
            }
            return None;
        },
    };
    let out = LogEvent::ModelStarted { model_id, provider };
    proof {
        assert(s@.subrange(pos as int, p5 as int) =~= enc_event(out));
        assert forall|e: LogEvent| ev_at(s@, pos as int, e) && e is ModelStarted implies p5
            == pos + enc_event(e).len() by {}
    }
    Some((out, p5))
}

/// What a canonical `ModelCompleted` payload dictates after its
/// matched type header.
#[verifier::rlimit(100)]
#[verifier::spinoff_prover]
proof fn lemma_model_completed_shape(s: Seq<char>, pos: int, p1: int)
    requires
        0 <= pos <= p1 <= s.len(),
        s.subrange(pos, p1) == "{\"type\":\"ModelCompleted\",\"model_id\":"@,
        p1 == pos + "{\"type\":\"ModelCompleted\",\"model_id\":"@.len(),
    ensures
        forall|e: LogEvent| ev_at(s, pos, e) && e is ModelCompleted ==> ({
            let a = json_string(e->ModelCompleted_model_id@);
            let f = if e->ModelCompleted_success { "true"@ } else { "false"@ };
            let b = dec_digits(e->ModelCompleted_outputs as nat);
            let c = dec_digits(e->ModelCompleted_errors as nat);
            let d = dec_digits(e->ModelCompleted_duration_ms as nat);
            let q1 = p1;
            let q2 = q1 + a.len();
            let q3 = q2 + ",\"success\":"@.len();
            let q4 = q3 + f.len();
            let q5 = q4 + ",\"outputs\":"@.len();
            let q6 = q5 + b.len();
            let q7 = q6 + ",\"errors\":"@.len();
            let q8 = q7 + c.len();
            let q9 = q8 + ",\"duration_ms\":"@.len();
            let q10 = q9 + d.len();
            &&& jstr_at(s, q1, e->ModelCompleted_model_id@)
            &&& s.subrange(q2, q3) == ",\"success\":"@
            &&& s.subrange(q3, q4) == f
            &&& s.subrange(q4, q5) == ",\"outputs\":"@
            &&& dec_at(s, q5, e->ModelCompleted_outputs as u64)
            &&& s.subrange(q6, q7) == ",\"errors\":"@
            &&& dec_at(s, q7, e->ModelCompleted_errors as u64)
            &&& s.subrange(q8, q9) == ",\"duration_ms\":"@
            &&& dec_at(s, q9, e->ModelCompleted_duration_ms)
            &&& s.subrange(q10, q10 + 1) == "}"@
            &&& pos + enc_event(e).len() == q10 + 1
        }),
{
    reveal_strlit("true");
    reveal_strlit("false");
        assert forall|e: LogEvent| ev_at(s, pos, e) && e is ModelCompleted implies ({
            let a = json_string(e->ModelCompleted_model_id@);
            let f = if e->ModelCompleted_success { "true"@ } else { "false"@ };
            let b = dec_digits(e->ModelCompleted_outputs as nat);
            let c = dec_digits(e->ModelCompleted_errors as nat);
            let d = dec_digits(e->ModelCompleted_duration_ms as nat);
            let q1 = p1;
            let q2 = q1 + a.len();
            let q3 = q2 + ",\"success\":"@.len();
            let q4 = q3 + f.len();
            let q5 = q4 + ",\"outputs\":"@.len();
            let q6 = q5 + b.len();
            let q7 = q6 + ",\"errors\":"@.len();
            let q8 = q7 + c.len();
            let q9 = q8 + ",\"duration_ms\":"@.len();
            let q10 = q9 + d.len();
            &&& jstr_at(s, q1, e->ModelCompleted_model_id@)
            &&& s.subrange(q2, q3) == ",\"success\":"@
            &&& s.subrange(q3, q4) == f
            &&& s.subrange(q4, q5) == ",\"outputs\":"@
            &&& dec_at(s, q5, e->ModelCompleted_outputs as u64)
            &&& s.subrange(q6, q7) == ",\"errors\":"@
            &&& dec_at(s, q7, e->ModelCompleted_errors as u64)
            &&& s.subrange(q8, q9) == ",\"duration_ms\":"@
            &&& dec_at(s, q9, e->ModelCompleted_duration_ms)
            &&& s.subrange(q10, q10 + 1) == "}"@
            &&& pos + enc_event(e).len() == q10 + 1
        }) by {
            reveal_strlit("}");
            let whole = enc_event(e);
            let a = json_string(e->ModelCompleted_model_id@);
            let f = if e->ModelCompleted_success { "true"@ } else { "false"@ };
            let b = dec_digits(e->ModelCompleted_outputs as nat);
            let c = dec_digits(e->ModelCompleted_errors as nat);
            let d = dec_digits(e->ModelCompleted_duration_ms as nat);
            let l1 = "{\"type\":\"ModelCompleted\",\"model_id\":"@.len() as int;
            let a1 = l1;
            let a2 = a1 + a.len();
            let a3 = a2 + ",\"success\":"@.len();
            let a4 = a3 + f.len();
            let a5 = a4 + ",\"outputs\":"@.len();
            let a6 = a5 + b.len();
            let a7 = a6 + ",\"errors\":"@.len();
            let a8 = a7 + c.len();
            let a9 = a8 + ",\"duration_ms\":"@.len();
            let a10 = a9 + d.len();
            assert(whole.subrange(a1, a2 as int) =~= a);
            assert(whole.subrange(a2, a3) =~= ",\"success\":"@);
            assert(whole.subrange(a3, a4 as int) =~= f);
            assert(whole.subrange(a4, a5) =~= ",\"outputs\":"@);
            assert(whole.subrange(a5, a6 as int) =~= b);
            assert(whole.subrange(a6, a7) =~= ",\"errors\":"@);
            assert(whole.subrange(a7, a8 as int) =~= c);
            assert(whole.subrange(a8, a9) =~= ",\"duration_ms\":"@);
            assert(whole.subrange(a9, a10 as int) =~= d);
            assert(whole.subrange(a10, a10 + 1) =~= "}"@);
            lemma_seg(s, pos, whole, a1, a);
            lemma_seg(s, pos, whole, a2, ",\"success\":"@);
            lemma_seg(s, pos, whole, a3, f);
            lemma_seg(s, pos, whole, a4, ",\"outputs\":"@);
            lemma_seg(s, pos, whole, a5, b);
            lemma_seg(s, pos, whole, a6, ",\"errors\":"@);
            lemma_seg(s, pos, whole, a7, c);
            lemma_seg(s, pos, whole, a8, ",\"duration_ms\":"@);
            lemma_seg(s, pos, whole, a9, d);
            lemma_seg(s, pos, whole, a10, "}"@);
            lemma_seg_char(s, pos, whole, a6);
            lemma_seg_char(s, pos, whole, a8);
            lemma_seg_char(s, pos, whole, a10);
            reveal_strlit(",\"errors\":");
            reveal_strlit(",\"duration_ms\":");
            reveal_strlit("}");
            assert(whole[a6] == ',');
            assert(whole[a8] == ',');
            assert(whole[a10] == '}');
            lemma_not_digit_char(',');
            lemma_not_digit_char('}');
            assert(dec_digits((e->ModelCompleted_outputs as u64) as nat) == b);
            assert(dec_digits((e->ModelCompleted_errors as u64) as nat) == c);
        }
}

/// Reads a `ModelCompleted` payload after its matched type header.
#[verifier::rlimit(100)]
fn parse_ev_model_completed(s: &str, pos: usize, p1: usize) -> (r: Option<(LogEvent, usize)>)
    requires
        pos <= p1 <= s@.len(),
        s@.subrange(pos as int, p1 as int) == "{\"type\":\"ModelCompleted\",\"model_id\":"@,
        p1 == pos + "{\"type\":\"ModelCompleted\",\"model_id\":"@.len(),
    ensures
        r matches Some(p) ==> pos < p.1 <= s@.len() && s@.subrange(pos as int, p.1 as int)
            == enc_event(p.0),
        forall|e: LogEvent| ev_at(s@, pos as int, e) && e is ModelCompleted ==> (
        r matches Some(p) && p.1 == pos + enc_event(e).len()),
{
    proof {
        lemma_model_completed_shape(s@, pos as int, p1 as int);
    }
    let (model_id, p2) = match parse_json_string(s, p1) {
        Some(x) => x,
        None => {
            proof {
                assert forall|e: LogEvent| !(ev_at(s@, pos as int, e) && e is ModelCompleted) by {
                    if ev_at(s@, pos as int, e) && e is ModelCompleted {}
                }
            }
            return None;
        },
    };
    let p3 = match expect_lit(s, p2, ",\"success\":") {
        Some(x) => x,
        None => {
            proof {
                assert forall|e: LogEvent| !(ev_at(s@, pos as int, e) && e is ModelCompleted) by {
                    if ev_at(s@, pos as int, e) && e is ModelCompleted {}
                }
            }
            return None;
        },
    };
    let (success, p4) = if let Some(pt) = expect_lit(s, p3, "true") {
        proof {
            assert forall|e: LogEvent| ev_at(s@, pos as int, e) && e is ModelCompleted implies
                e->ModelCompleted_success by {
                reveal_strlit("true");
                reveal_strlit("false");
                if !e->ModelCompleted_success {
                    lemma_lit_clash(
                        s@,
                        p3 as int,
                        "true"@,
                        "false"@,
                        0,
                    );
                }
            }
        }
        (true, pt)
    } else if let Some(pf) = expect_lit(s, p3, "false") {
        proof {
            assert forall|e: LogEvent| ev_at(s@, pos as int, e) && e is ModelCompleted implies
                !e->ModelCompleted_success by {
                reveal_strlit("true");
                reveal_strlit("false");
                if e->ModelCompleted_success {
                    lemma_lit_clash(
                        s@,
                        p3 as int,
                        "false"@,
                        "true"@,
                        0,
                    );
                }
            }
        }
        (false, pf)
    } else {
        proof {
            assert forall|e: LogEvent| !(ev_at(s@, pos as int, e) && e is ModelCompleted) by {
                if ev_at(s@, pos as int, e) && e is ModelCompleted {}
            }
        }
        return None;
    };
    proof {
        assert(s@.subrange(pos as int, p4 as int)
            =~= "{\"type\":\"ModelCompleted\",\"model_id\":"@ + json_string(model_id@)
            + ",\"success\":"@ + (if success { "true"@ } else { "false"@ }));
    }
    parse_ev_mc_numbers(s, pos, p4, model_id, success)
}

/// Reads the three counters and the closing brace of a
/// `ModelCompleted` payload.
#[verifier::rlimit(100)]
fn parse_ev_mc_numbers(
    s: &str,
    pos: usize,
    p4: usize,
    model_id: String,
    success: bool,
) -> (r: Option<(LogEvent, usize)>)
    requires
        pos <= p4 <= s@.len(),
        s@.subrange(pos as int, p4 as int) == "{\"type\":\"ModelCompleted\",\"model_id\":"@
            + json_string(model_id@) + ",\"success\":"@ + (if success {
            "true"@
        } else {
            "false"@
        }),
        forall|e: LogEvent| ev_at(s@, pos as int, e) && e is ModelCompleted ==> ({
            let b = dec_digits(e->ModelCompleted_outputs as nat);
            let c = dec_digits(e->ModelCompleted_errors as nat);
            let d = dec_digits(e->ModelCompleted_duration_ms as nat);
            let q5 = p4 + ",\"outputs\":"@.len();
            let q6 = q5 + b.len();
            let q7 = q6 + ",\"errors\":"@.len();
            let q8 = q7 + c.len();
            let q9 = q8 + ",\"duration_ms\":"@.len();
            let q10 = q9 + d.len();
            &&& s@.subrange(p4 as int, q5) == ",\"outputs\":"@
            &&& dec_at(s@, q5, e->ModelCompleted_outputs as u64)
            &&& s@.subrange(q6, q7) == ",\"errors\":"@
            &&& dec_at(s@, q7, e->ModelCompleted_errors as u64)
            &&& s@.subrange(q8, q9) == ",\"duration_ms\":"@
            &&& dec_at(s@, q9, e->ModelCompleted_duration_ms)
            &&& s@.subrange(q10, q10 + 1) == "}"@
            &&& pos + enc_event(e).len() == q10 + 1
            &&& e->ModelCompleted_success == success
        }),
    ensures
        r matches Some(p) ==> pos < p.1 <= s@.len() && s@.subrange(pos as int, p.1 as int)
            == enc_event(p.0),
        forall|e: LogEvent| ev_at(s@, pos as int, e) && e is ModelCompleted ==> (
        r matches Some(p) && p.1 == pos + enc_event(e).len()),
{
    let p5 = match expect_lit(s, p4, ",\"outputs\":") {

        Some(x) => x,
        None => {
            proof {
                assert forall|e: LogEvent| !(ev_at(s@, pos as int, e) && e is ModelCompleted) by {
                    if ev_at(s@, pos as int, e) && e is ModelCompleted {}
                }
            }
            return None;
        },
    };
    let (outputs64, p6) = match parse_u64(s, p5) {
        Some(x) => x,
        None => {
            proof {
                assert forall|e: LogEvent| !(ev_at(s@, pos as int, e) && e is ModelCompleted) by {
                    if ev_at(s@, pos as int, e) && e is ModelCompleted {}
                }
            }
            return None;
        },
    };
    if outputs64 > usize::MAX as u64 {
        proof {
            assert forall|e: LogEvent| !(ev_at(s@, pos as int, e) && e is ModelCompleted) by {
                if ev_at(s@, pos as int, e) && e is ModelCompleted {}
            }
        }
        return None;
    }
    let p7 = match expect_lit(s, p6, ",\"errors\":") {
        Some(x) => x,
        None => {
            proof {
                assert forall|e: LogEvent| !(ev_at(s@, pos as int, e) && e is ModelCompleted) by {
                    if ev_at(s@, pos as int, e) && e is ModelCompleted {}
                }
            }
            return None;
        },
    };
    let (errors64, p8) = match parse_u64(s, p7) {
        Some(x) => x,
        None => {
            proof {
                assert forall|e: LogEvent| !(ev_at(s@, pos as int, e) && e is ModelCompleted) by {
                    if ev_at(s@, pos as int, e) && e is ModelCompleted {}
                }
            }
            return None;
        },
    };
    if errors64 > usize::MAX as u64 {
        proof {
            assert forall|e: LogEvent| !(ev_at(s@, pos as int, e) && e is ModelCompleted) by {
                if ev_at(s@, pos as int, e) && e is ModelCompleted {}
            }
        }
        return None;
    }
    let p9 = match expect_lit(s, p8, ",\"duration_ms\":") {
        Some(x) => x,
        None => {
            proof {
                assert forall|e: LogEvent| !(ev_at(s@, pos as int, e) && e is ModelCompleted) by {
                    if ev_at(s@, pos as int, e) && e is ModelCompleted {}
                }
            }
            return None;
        },
    };
    let (duration_ms, p10) = match parse_u64(s, p9) {
        Some(x) => x,
        None => {
            proof {
                assert forall|e: LogEvent| !(ev_at(s@, pos as int, e) && e is ModelCompleted) by {
                    if ev_at(s@, pos as int, e) && e is ModelCompleted {}
                }
            }
            return None;
        },
    };
    let p11 = match expect_lit(s, p10, "}") {
        Some(x) => x,
        None => {
            proof {
                assert forall|e: LogEvent| !(ev_at(s@, pos as int, e) && e is ModelCompleted) by {
                    if ev_at(s@, pos as int, e) && e is ModelCompleted {}
                }
            }
            return None;
        },
    };
    let out = LogEvent::ModelCompleted {
        model_id,
        success,
        outputs: outputs64 as usize,
        errors: errors64 as usize,
        duration_ms,
    };
    proof {
        assert(s@.subrange(pos as int, p11 as int) =~= enc_event(out));
        assert forall|e: LogEvent| ev_at(s@, pos as int, e) && e is ModelCompleted implies p11
            == pos + enc_event(e).len() by {}
    }
    Some((out, p11))
}

/// Reads a `MetricCalculated` payload after its matched type header.
fn parse_ev_metric_calculated(s: &str, pos: usize, p1: usize) -> (r: Option<(LogEvent, usize)>)
    requires
        pos <= p1 <= s@.len(),
        s@.subrange(pos as int, p1 as int) == "{\"type\":\"MetricCalculated\",\"metric_name\":"@,
        p1 == pos + "{\"type\":\"MetricCalculated\",\"metric_name\":"@.len(),
    ensures
        r matches Some(p) ==> pos < p.1 <= s@.len() && s@.subrange(pos as int, p.1 as int)
            == enc_event(p.0),
        forall|e: LogEvent| ev_at(s@, pos as int, e) && e is MetricCalculated ==> (
        r matches Some(p) && p.1 == pos + enc_event(e).len()),
{
    proof {
        assert forall|e: LogEvent| ev_at(s@, pos as int, e) && e is MetricCalculated implies ({
            let a = json_string(e->MetricCalculated_metric_name@);
            let b = json_string(e->MetricCalculated_model_id@);
            let c = dec_digits(e->MetricCalculated_score as nat);
            let q1 = p1 as int;
            let q2 = q1 + a.len();
            let q3 = q2 + ",\"model_id\":"@.len();
            let q4 = q3 + b.len();
            let q5 = q4 + ",\"score\":"@.len();
            let q6 = q5 + c.len();
            &&& jstr_at(s@, q1, e->MetricCalculated_metric_name@)
            &&& s@.subrange(q2, q3) == ",\"model_id\":"@
            &&& jstr_at(s@, q3, e->MetricCalculated_model_id@)
            &&& s@.subrange(q4, q5) == ",\"score\":"@
            &&& dec_at(s@, q5, e->MetricCalculated_score)
            &&& s@.subrange(q6, q6 + 1) == "}"@
            &&& pos + enc_event(e).len() == q6 + 1
        }) by {
            reveal_strlit("}");
            let whole = enc_event(e);
            let a = json_string(e->MetricCalculated_metric_name@);
            let b = json_string(e->MetricCalculated_model_id@);
            let c = dec_digits(e->MetricCalculated_score as nat);
            let l1 = "{\"type\":\"MetricCalculated\",\"metric_name\":"@.len() as int;
            let a1 = l1;
            let a2 = a1 + a.len();
            let a3 = a2 + ",\"model_id\":"@.len();
            let a4 = a3 + b.len();
            let a5 = a4 + ",\"score\":"@.len();
            let a6 = a5 + c.len();
            assert(whole.subrange(a1, a2 as int) =~= a);
            assert(whole.subrange(a2, a3) =~= ",\"model_id\":"@);
            assert(whole.subrange(a3, a4 as int) =~= b);
            assert(whole.subrange(a4, a5) =~= ",\"score\":"@);
            assert(whole.subrange(a5, a6 as int) =~= c);
            assert(whole.subrange(a6, a6 + 1) =~= "}"@);
            lemma_seg(s@, pos as int, whole, a1, a);
            lemma_seg(s@, pos as int, whole, a2, ",\"model_id\":"@);
            lemma_seg(s@, pos as int, whole, a3, b);
            lemma_seg(s@, pos as int, whole, a4, ",\"score\":"@);
            lemma_seg(s@, pos as int, whole, a5, c);
            lemma_seg(s@, pos as int, whole, a6, "}"@);
            lemma_seg_char(s@, pos as int, whole, a6);
            reveal_strlit("}");
            assert(whole[a6] == '}');
            lemma_not_digit_char('}');
        }
    }
    let (metric_name, p2) = match parse_json_string(s, p1) {
        Some(x) => x,
        None => {
            proof {
                assert forall|e: LogEvent| !(ev_at(s@, pos as int, e) && e is MetricCalculated) by {
                    if ev_at(s@, pos as int, e) && e is MetricCalculated {}
                }
            }
            return None;
        },
    };
    let p3 = match expect_lit(s, p2, ",\"model_id\":") {
        Some(x) => x,
        None => {
            proof {
                assert forall|e: LogEvent| !(ev_at(s@, pos as int, e) && e is MetricCalculated) by {
                    if ev_at(s@, pos as int, e) && e is MetricCalculated {}
                }
            }
            return None;
        },
    };
    let (model_id, p4) = match parse_json_string(s, p3) {
        Some(x) => x,
        None => {
            proof {
                assert forall|e: LogEvent| !(ev_at(s@, pos as int, e) && e is MetricCalculated) by {
                    if ev_at(s@, pos as int, e) && e is MetricCalculated {}
                }
            }
            return None;
        },
    };
    let p5 = match expect_lit(s, p4, ",\"score\":") {
        Some(x) => x,
        None => {
            proof {
                assert forall|e: LogEvent| !(ev_at(s@, pos as int, e) && e is MetricCalculated) by {
                    if ev_at(s@, pos as int, e) && e is MetricCalculated {}
                }
            }
            return None;
        },
    };
    let (score, p6) = match parse_u64(s, p5) {
        Some(x) => x,
        None => {
            proof {
                assert forall|e: LogEvent| !(ev_at(s@, pos as int, e) && e is MetricCalculated) by {
                    if ev_at(s@, pos as int, e) && e is MetricCalculated {}
                }
            }
            return None;
        },
    };
    let p7 = match expect_lit(s, p6, "}") {
        Some(x) => x,
        None => {
            proof {
                assert forall|e: LogEvent| !(ev_at(s@, pos as int, e) && e is MetricCalculated) by {
                    if ev_at(s@, pos as int, e) && e is MetricCalculated {}
                }
            }
            return None;
        },
    };
    let out = LogEvent::MetricCalculated { metric_name, model_id, score };
    proof {
        assert(s@.subrange(pos as int, p7 as int) =~= enc_event(out));
        assert forall|e: LogEvent| ev_at(s@, pos as int, e) && e is MetricCalculated implies p7
            == pos + enc_event(e).len() by {}
    }
    Some((out, p7))
}

/// Reads a `JobCompleted` payload after its matched type header.
#[verifier::rlimit(100)]
fn parse_ev_job_completed(s: &str, pos: usize, p1: usize) -> (r: Option<(LogEvent, usize)>)
    requires
        pos <= p1 <= s@.len(),
        s@.subrange(pos as int, p1 as int) == "{\"type\":\"JobCompleted\",\"duration_ms\":"@,
        p1 == pos + "{\"type\":\"JobCompleted\",\"duration_ms\":"@.len(),
    ensures
        r matches Some(p) ==> pos < p.1 <= s@.len() && s@.subrange(pos as int, p.1 as int)
            == enc_event(p.0),
        forall|e: LogEvent| ev_at(s@, pos as int, e) && e is JobCompleted ==> (r matches Some(p)
            && p.1 == pos + enc_event(e).len()),
{
    proof {
        assert forall|e: LogEvent| ev_at(s@, pos as int, e) && e is JobCompleted implies ({
            let a = dec_digits(e->JobCompleted_duration_ms as nat);
            let b = dec_digits(e->JobCompleted_total_outputs as nat);
            let c = dec_digits(e->JobCompleted_total_errors as nat);
            let q1 = p1 as int;
            let q2 = q1 + a.len();
            let q3 = q2 + ",\"total_outputs\":"@.len();
            let q4 = q3 + b.len();
            let q5 = q4 + ",\"total_errors\":"@.len();
            let q6 = q5 + c.len();
            &&& dec_at(s@, q1, e->JobCompleted_duration_ms)
            &&& s@.subrange(q2, q3) == ",\"total_outputs\":"@
            &&& dec_at(s@, q3, e->JobCompleted_total_outputs as u64)
            &&& s@.subrange(q4, q5) == ",\"total_errors\":"@
            &&& dec_at(s@, q5, e->JobCompleted_total_errors as u64)
            &&& s@.subrange(q6, q6 + 1) == "}"@
            &&& pos + enc_event(e).len() == q6 + 1
        }) by {
            reveal_strlit("}");
            let whole = enc_event(e);
            let a = dec_digits(e->JobCompleted_duration_ms as nat);
            let b = dec_digits(e->JobCompleted_total_outputs as nat);
            let c = dec_digits(e->JobCompleted_total_errors as nat);
            let l1 = "{\"type\":\"JobCompleted\",\"duration_ms\":"@.len() as int;
            let a1 = l1;
            let a2 = a1 + a.len();
            let a3 = a2 + ",\"total_outputs\":"@.len();
            let a4 = a3 + b.len();
            let a5 = a4 + ",\"total_errors\":"@.len();
            let a6 = a5 + c.len();
            assert(whole.subrange(a1, a2 as int) =~= a);
            assert(whole.subrange(a2, a3) =~= ",\"total_outputs\":"@);
            assert(whole.subrange(a3, a4 as int) =~= b);
            assert(whole.subrange(a4, a5) =~= ",\"total_errors\":"@);
            assert(whole.subrange(a5, a6 as int) =~= c);
            assert(whole.subrange(a6, a6 + 1) =~= "}"@);
            lemma_seg(s@, pos as int, whole, a1, a);
            lemma_seg(s@, pos as int, whole, a2, ",\"total_outputs\":"@);
            lemma_seg(s@, pos as int, whole, a3, b);
            lemma_seg(s@, pos as int, whole, a4, ",\"total_errors\":"@);
            lemma_seg(s@, pos as int, whole, a5, c);
            lemma_seg(s@, pos as int, whole, a6, "}"@);
            lemma_seg_char(s@, pos as int, whole, a2);
            lemma_seg_char(s@, pos as int, whole, a4);
            lemma_seg_char(s@, pos as int, whole, a6);
            reveal_strlit(",\"total_outputs\":");
            reveal_strlit(",\"total_errors\":");
            reveal_strlit("}");
            assert(whole[a2] == ',');
            assert(whole[a4] == ',');
            assert(whole[a6] == '}');
            lemma_not_digit_char(',');
            lemma_not_digit_char('}');
            assert(dec_digits((e->JobCompleted_total_outputs as u64) as nat) == b);
            assert(dec_digits((e->JobCompleted_total_errors as u64) as nat) == c);
        }
    }
    let (duration_ms, p2) = match parse_u64(s, p1) {
        Some(x) => x,
        None => {
            proof {
                assert forall|e: LogEvent| !(ev_at(s@, pos as int, e) && e is JobCompleted) by {
                    if ev_at(s@, pos as int, e) && e is JobCompleted {}
                }
            }
            return None;
        },
    };
    let p3 = match expect_lit(s, p2, ",\"total_outputs\":") {
        Some(x) => x,
        None => {
            proof {
                assert forall|e: LogEvent| !(ev_at(s@, pos as int, e) && e is JobCompleted) by {
                    if ev_at(s@, pos as int, e) && e is JobCompleted {}
                }
            }
            return None;
        },
    };
    let (out64, p4) = match parse_u64(s, p3) {
        Some(x) => x,
        None => {
            proof {
                assert forall|e: LogEvent| !(ev_at(s@, pos as int, e) && e is JobCompleted) by {
                    if ev_at(s@, pos as int, e) && e is JobCompleted {}
                }
            }
            return None;
        },
    };
    if out64 > usize::MAX as u64 {
        proof {
            assert forall|e: LogEvent| !(ev_at(s@, pos as int, e) && e is JobCompleted) by {
                if ev_at(s@, pos as int, e) && e is JobCompleted {}
            }
        }
        return None;
    }
    let p5 = match expect_lit(s, p4, ",\"total_errors\":") {
        Some(x) => x,
        None => {
            proof {
                assert forall|e: LogEvent| !(ev_at(s@, pos as int, e) && e is JobCompleted) by {
                    if ev_at(s@, pos as int, e) && e is JobCompleted {}
                }
            }
            return None;
        },
    };
    let (err64, p6) = match parse_u64(s, p5) {
        Some(x) => x,
        None => {
            proof {
                assert forall|e: LogEvent| !(ev_at(s@, pos as int, e) && e is JobCompleted) by {
                    if ev_at(s@, pos as int, e) && e is JobCompleted {}
                }
            }
            return None;
        },
    };
    if err64 > usize::MAX as u64 {
        proof {
            assert forall|e: LogEvent| !(ev_at(s@, pos as int, e) && e is JobCompleted) by {
                if ev_at(s@, pos as int, e) && e is JobCompleted {}
            }
        }
        return None;
    }
    let p7 = match expect_lit(s, p6, "}") {
        Some(x) => x,
        None => {
            proof {
                assert forall|e: LogEvent| !(ev_at(s@, pos as int, e) && e is JobCompleted) by {
                    if ev_at(s@, pos as int, e) && e is JobCompleted {}
                }
            }
            return None;
        },
    };
    let out = LogEvent::JobCompleted {
        duration_ms,
        total_outputs: out64 as usize,
        total_errors: err64 as usize,
    };
    proof {
        assert(s@.subrange(pos as int, p7 as int) =~= enc_event(out));
        assert forall|e: LogEvent| ev_at(s@, pos as int, e) && e is JobCompleted implies p7
            == pos + enc_event(e).len() by {}
    }
    Some((out, p7))
}

/// Reads an `Error` payload after its matched type header.
fn parse_ev_error(s: &str, pos: usize, p1: usize) -> (r: Option<(LogEvent, usize)>)
    requires
        pos <= p1 <= s@.len(),
        s@.subrange(pos as int, p1 as int) == "{\"type\":\"Error\",\"message\":"@,
        p1 == pos + "{\"type\":\"Error\",\"message\":"@.len(),
    ensures
        r matches Some(p) ==> pos < p.1 <= s@.len() && s@.subrange(pos as int, p.1 as int)
            == enc_event(p.0),
        forall|e: LogEvent| ev_at(s@, pos as int, e) && e is Error ==> (r matches Some(p)
            && p.1 == pos + enc_event(e).len()),
{
    proof {
        assert forall|e: LogEvent| ev_at(s@, pos as int, e) && e is Error implies ({
            let a = json_string(e->Error_message@);
            let b = enc_ctx(e->Error_context@.map_values(|p: (String, MetaValue)| (p.0@, p.1)));
            let q1 = p1 as int;
            let q2 = q1 + a.len();
            let q3 = q2 + ",\"context\":"@.len();
            let q4 = q3 + b.len();
            &&& jstr_at(s@, q1, e->Error_message@)
            &&& s@.subrange(q2, q3) == ",\"context\":"@
            &&& ctx_at(s@, q3, e->Error_context@.map_values(|p: (String, MetaValue)| (p.0@, p.1)))
            &&& s@.subrange(q4, q4 + 1) == "}"@
            &&& pos + enc_event(e).len() == q4 + 1
        }) by {
            reveal_strlit("}");
            let whole = enc_event(e);
            let a = json_string(e->Error_message@);
            let b = enc_ctx(e->Error_context@.map_values(|p: (String, MetaValue)| (p.0@, p.1)));
            let l1 = "{\"type\":\"Error\",\"message\":"@.len() as int;
            let a1 = l1;
            let a2 = a1 + a.len();
            let a3 = a2 + ",\"context\":"@.len();
            let a4 = a3 + b.len();
            assert(whole.subrange(a1, a2 as int) =~= a);
            assert(whole.subrange(a2, a3) =~= ",\"context\":"@);
            assert(whole.subrange(a3, a4 as int) =~= b);
            assert(whole.subrange(a4, a4 + 1) =~= "}"@);
            lemma_seg(s@, pos as int, whole, a1, a);
            lemma_seg(s@, pos as int, whole, a2, ",\"context\":"@);
            lemma_seg(s@, pos as int, whole, a3, b);
            lemma_seg(s@, pos as int, whole, a4, "}"@);
        }
    }
    let (message, p2) = match parse_json_string(s, p1) {
        Some(x) => x,
        None => {
            proof {
                assert forall|e: LogEvent| !(ev_at(s@, pos as int, e) && e is Error) by {
                    if ev_at(s@, pos as int, e) && e is Error {}
                }
            }
            return None;
        },
    };
    let p3 = match expect_lit(s, p2, ",\"context\":") {
        Some(x) => x,
        None => {
            proof {
                assert forall|e: LogEvent| !(ev_at(s@, pos as int, e) && e is Error) by {
                    if ev_at(s@, pos as int, e) && e is Error {}
                }
            }
            return None;
        },
    };
    let (context, p4) = match parse_ctx(s, p3) {
        Some(x) => x,
        None => {
            proof {
                assert forall|e: LogEvent| !(ev_at(s@, pos as int, e) && e is Error) by {
                    if ev_at(s@, pos as int, e) && e is Error {}
                }
            }
            return None;
        },
    };
    let p5 = match expect_lit(s, p4, "}") {
        Some(x) => x,
        None => {
            proof {
                assert forall|e: LogEvent| !(ev_at(s@, pos as int, e) && e is Error) by {
                    if ev_at(s@, pos as int, e) && e is Error {}
                }
            }
            return None;
        },
    };
    let out = LogEvent::Error { message, context };
    proof {
        assert(ctx_views(out->Error_context@)
            == out->Error_context@.map_values(|p: (String, MetaValue)| (p.0@, p.1)));
        assert(s@.subrange(pos as int, p5 as int) =~= enc_event(out));
        assert forall|e: LogEvent| ev_at(s@, pos as int, e) && e is Error implies p5 == pos
            + enc_event(e).len() by {}
    }
    Some((out, p5))
}

/// The text every event payload opens with, for its type.
proof fn lemma_ev_opens(s: Seq<char>, pos: int, e: LogEvent)
    requires
        0 <= pos,
        ev_at(s, pos, e),
    ensures
        e is JobStarted ==> pos + "{\"type\":\"JobStarted\",\"models\":"@.len() <= s.len()
            && s.subrange(pos, pos + "{\"type\":\"JobStarted\",\"models\":"@.len())
            == "{\"type\":\"JobStarted\",\"models\":"@,
        e is ModelStarted ==> pos + "{\"type\":\"ModelStarted\",\"model_id\":"@.len() <= s.len()
            && s.subrange(pos, pos + "{\"type\":\"ModelStarted\",\"model_id\":"@.len())
            == "{\"type\":\"ModelStarted\",\"model_id\":"@,
        e is ModelCompleted ==> pos + "{\"type\":\"ModelCompleted\",\"model_id\":"@.len()
            <= s.len() && s.subrange(
            pos,
            pos + "{\"type\":\"ModelCompleted\",\"model_id\":"@.len(),
        ) == "{\"type\":\"ModelCompleted\",\"model_id\":"@,
        e is MetricCalculated ==> pos + "{\"type\":\"MetricCalculated\",\"metric_name\":"@.len()
            <= s.len() && s.subrange(
            pos,
            pos + "{\"type\":\"MetricCalculated\",\"metric_name\":"@.len(),
        ) == "{\"type\":\"MetricCalculated\",\"metric_name\":"@,
        e is JobCompleted ==> pos + "{\"type\":\"JobCompleted\",\"duration_ms\":"@.len()
            <= s.len() && s.subrange(
            pos,
            pos + "{\"type\":\"JobCompleted\",\"duration_ms\":"@.len(),
        ) == "{\"type\":\"JobCompleted\",\"duration_ms\":"@,
        e is Error ==> pos + "{\"type\":\"Error\",\"message\":"@.len() <= s.len()
            && s.subrange(pos, pos + "{\"type\":\"Error\",\"message\":"@.len())
            == "{\"type\":\"Error\",\"message\":"@,
{
    let whole = enc_event(e);
    match e {
        LogEvent::JobStarted { models, prompts, metrics } => {
            let lit = "{\"type\":\"JobStarted\",\"models\":"@;
            assert(whole.subrange(0, lit.len() as int) =~= lit);
            lemma_seg(s, pos, whole, 0, lit);
        },
        LogEvent::ModelStarted { model_id, provider } => {
            let lit = "{\"type\":\"ModelStarted\",\"model_id\":"@;
            assert(whole.subrange(0, lit.len() as int) =~= lit);
            lemma_seg(s, pos, whole, 0, lit);
        },
        LogEvent::ModelCompleted { model_id, success, outputs, errors, duration_ms } => {
            let lit = "{\"type\":\"ModelCompleted\",\"model_id\":"@;
            assert(whole.subrange(0, lit.len() as int) =~= lit);
            lemma_seg(s, pos, whole, 0, lit);
        },
        LogEvent::MetricCalculated { metric_name, model_id, score } => {
            let lit = "{\"type\":\"MetricCalculated\",\"metric_name\":"@;
            assert(whole.subrange(0, lit.len() as int) =~= lit);
            lemma_seg(s, pos, whole, 0, lit);
        },
        LogEvent::JobCompleted { duration_ms, total_outputs, total_errors } => {
            let lit = "{\"type\":\"JobCompleted\",\"duration_ms\":"@;
            assert(whole.subrange(0, lit.len() as int) =~= lit);
            lemma_seg(s, pos, whole, 0, lit);
        },
        LogEvent::Error { message, context } => {
            let lit = "{\"type\":\"Error\",\"message\":"@;
            assert(whole.subrange(0, lit.len() as int) =~= lit);
            lemma_seg(s, pos, whole, 0, lit);
        },
    }
}

/// Reads one canonical event payload at `pos`: the type headers are
/// tried in turn, and exactly the matching payload shape is read. A
/// canonical payload at `pos` is always read back.
fn parse_event(s: &str, pos: usize) -> (r: Option<(LogEvent, usize)>)
    requires
        pos <= s@.len(),
    ensures
        r matches Some(p) ==> pos < p.1 <= s@.len() && s@.subrange(pos as int, p.1 as int)
            == enc_event(p.0),
        forall|e: LogEvent| ev_at(s@, pos as int, e) ==> (r matches Some(p)
            && p.1 == pos + enc_event(e).len()),
{
    if let Some(p1) = expect_lit(s, pos, "{\"type\":\"JobStarted\",\"models\":") {
        proof {
            assert forall|e: LogEvent| ev_at(s@, pos as int, e) implies e is JobStarted by {
                reveal_strlit("{\"type\":\"JobStarted\",\"models\":");
                reveal_strlit("{\"type\":\"ModelStarted\",\"model_id\":");
                reveal_strlit("{\"type\":\"ModelCompleted\",\"model_id\":");
                reveal_strlit("{\"type\":\"MetricCalculated\",\"metric_name\":");
                reveal_strlit("{\"type\":\"JobCompleted\",\"duration_ms\":");
                reveal_strlit("{\"type\":\"Error\",\"message\":");
                lemma_ev_opens(s@, pos as int, e);
                let m = "{\"type\":\"JobStarted\",\"models\":"@;
                if e is ModelStarted {
                    lemma_lit_clash(s@, pos as int, m,
                        "{\"type\":\"ModelStarted\",\"model_id\":"@, 9);
                } else if e is ModelCompleted {
                    lemma_lit_clash(s@, pos as int, m,
                        "{\"type\":\"ModelCompleted\",\"model_id\":"@, 9);
                } else if e is MetricCalculated {
                    lemma_lit_clash(s@, pos as int, m,
                        "{\"type\":\"MetricCalculated\",\"metric_name\":"@, 9);
                } else if e is JobCompleted {
                    lemma_lit_clash(s@, pos as int, m,
                        "{\"type\":\"JobCompleted\",\"duration_ms\":"@, 12);
                } else if e is Error {
                    lemma_lit_clash(s@, pos as int, m,
                        "{\"type\":\"Error\",\"message\":"@, 9);
                }
            }
        }
        return parse_ev_job_started(s, pos, p1);
    }
    if let Some(p1) = expect_lit(s, pos, "{\"type\":\"ModelStarted\",\"model_id\":") {
        proof {
            assert forall|e: LogEvent| ev_at(s@, pos as int, e) implies e is ModelStarted by {
                reveal_strlit("{\"type\":\"JobStarted\",\"models\":");
                reveal_strlit("{\"type\":\"ModelStarted\",\"model_id\":");
                reveal_strlit("{\"type\":\"ModelCompleted\",\"model_id\":");
                reveal_strlit("{\"type\":\"MetricCalculated\",\"metric_name\":");
                reveal_strlit("{\"type\":\"JobCompleted\",\"duration_ms\":");
                reveal_strlit("{\"type\":\"Error\",\"message\":");
                lemma_ev_opens(s@, pos as int, e);
                let m = "{\"type\":\"ModelStarted\",\"model_id\":"@;
                if e is JobStarted {
                    lemma_lit_clash(s@, pos as int, m,
                        "{\"type\":\"JobStarted\",\"models\":"@, 9);
                } else if e is ModelCompleted {
                    lemma_lit_clash(s@, pos as int, m,
                        "{\"type\":\"ModelCompleted\",\"model_id\":"@, 14);
                } else if e is MetricCalculated {
                    lemma_lit_clash(s@, pos as int, m,
                        "{\"type\":\"MetricCalculated\",\"metric_name\":"@, 10);
                } else if e is JobCompleted {
                    lemma_lit_clash(s@, pos as int, m,
                        "{\"type\":\"JobCompleted\",\"duration_ms\":"@, 9);
                } else if e is Error {
                    lemma_lit_clash(s@, pos as int, m,
                        "{\"type\":\"Error\",\"message\":"@, 9);
                }
            }
        }
        return parse_ev_model_started(s, pos, p1);
    }
    if let Some(p1) = expect_lit(s, pos, "{\"type\":\"ModelCompleted\",\"model_id\":") {
        proof {
            assert forall|e: LogEvent| ev_at(s@, pos as int, e) implies e is ModelCompleted by {
                reveal_strlit("{\"type\":\"JobStarted\",\"models\":");
                reveal_strlit("{\"type\":\"ModelStarted\",\"model_id\":");
                reveal_strlit("{\"type\":\"ModelCompleted\",\"model_id\":");
                reveal_strlit("{\"type\":\"MetricCalculated\",\"metric_name\":");
                reveal_strlit("{\"type\":\"JobCompleted\",\"duration_ms\":");
                reveal_strlit("{\"type\":\"Error\",\"message\":");
                lemma_ev_opens(s@, pos as int, e);
                let m = "{\"type\":\"ModelCompleted\",\"model_id\":"@;
                if e is JobStarted {
                    lemma_lit_clash(s@, pos as int, m,
                        "{\"type\":\"JobStarted\",\"models\":"@, 9);
                } else if e is ModelStarted {
                    lemma_lit_clash(s@, pos as int, m,
                        "{\"type\":\"ModelStarted\",\"model_id\":"@, 14);
                } else if e is MetricCalculated {
                    lemma_lit_clash(s@, pos as int, m,
                        "{\"type\":\"MetricCalculated\",\"metric_name\":"@, 10);
                } else if e is JobCompleted {
                    lemma_lit_clash(s@, pos as int, m,
                        "{\"type\":\"JobCompleted\",\"duration_ms\":"@, 9);
                } else if e is Error {
                    lemma_lit_clash(s@, pos as int, m,
                        "{\"type\":\"Error\",\"message\":"@, 9);
                }
            }
        }
        return parse_ev_model_completed(s, pos, p1);
    }
    if let Some(p1) = expect_lit(s, pos, "{\"type\":\"MetricCalculated\",\"metric_name\":") {
        proof {
            assert forall|e: LogEvent| ev_at(s@, pos as int, e) implies e is MetricCalculated by {
                reveal_strlit("{\"type\":\"JobStarted\",\"models\":");
                reveal_strlit("{\"type\":\"ModelStarted\",\"model_id\":");
                reveal_strlit("{\"type\":\"ModelCompleted\",\"model_id\":");
                reveal_strlit("{\"type\":\"MetricCalculated\",\"metric_name\":");
                reveal_strlit("{\"type\":\"JobCompleted\",\"duration_ms\":");
                reveal_strlit("{\"type\":\"Error\",\"message\":");
                lemma_ev_opens(s@, pos as int, e);
                let m = "{\"type\":\"MetricCalculated\",\"metric_name\":"@;
                if e is JobStarted {
                    lemma_lit_clash(s@, pos as int, m,
                        "{\"type\":\"JobStarted\",\"models\":"@, 9);
                } else if e is ModelStarted {
                    lemma_lit_clash(s@, pos as int, m,
                        "{\"type\":\"ModelStarted\",\"model_id\":"@, 10);
                } else if e is ModelCompleted {
                    lemma_lit_clash(s@, pos as int, m,
                        "{\"type\":\"ModelCompleted\",\"model_id\":"@, 10);
                } else if e is JobCompleted {
                    lemma_lit_clash(s@, pos as int, m,
                        "{\"type\":\"JobCompleted\",\"duration_ms\":"@, 9);
                } else if e is Error {
                    lemma_lit_clash(s@, pos as int, m,
                        "{\"type\":\"Error\",\"message\":"@, 9);
                }
            }
        }
        return parse_ev_metric_calculated(s, pos, p1);
    }
    if let Some(p1) = expect_lit(s, pos, "{\"type\":\"JobCompleted\",\"duration_ms\":") {
        proof {
            assert forall|e: LogEvent| ev_at(s@, pos as int, e) implies e is JobCompleted by {
                reveal_strlit("{\"type\":\"JobStarted\",\"models\":");
                reveal_strlit("{\"type\":\"ModelStarted\",\"model_id\":");
                reveal_strlit("{\"type\":\"ModelCompleted\",\"model_id\":");
                reveal_strlit("{\"type\":\"MetricCalculated\",\"metric_name\":");
                reveal_strlit("{\"type\":\"JobCompleted\",\"duration_ms\":");
                reveal_strlit("{\"type\":\"Error\",\"message\":");
                lemma_ev_opens(s@, pos as int, e);
                let m = "{\"type\":\"JobCompleted\",\"duration_ms\":"@;
                if e is JobStarted {
                    lemma_lit_clash(s@, pos as int, m,
                        "{\"type\":\"JobStarted\",\"models\":"@, 12);
                } else if e is ModelStarted {
                    lemma_lit_clash(s@, pos as int, m,
                        "{\"type\":\"ModelStarted\",\"model_id\":"@, 9);
                } else if e is ModelCompleted {
                    lemma_lit_clash(s@, pos as int, m,
                        "{\"type\":\"ModelCompleted\",\"model_id\":"@, 9);
                } else if e is MetricCalculated {
                    lemma_lit_clash(s@, pos as int, m,
                        "{\"type\":\"MetricCalculated\",\"metric_name\":"@, 9);
                } else if e is Error {
                    lemma_lit_clash(s@, pos as int, m,
                        "{\"type\":\"Error\",\"message\":"@, 9);
                }
            }
        }
        return parse_ev_job_completed(s, pos, p1);
    }
    if let Some(p1) = expect_lit(s, pos, "{\"type\":\"Error\",\"message\":") {
        proof {
            assert forall|e: LogEvent| ev_at(s@, pos as int, e) implies e is Error by {
                reveal_strlit("{\"type\":\"JobStarted\",\"models\":");
                reveal_strlit("{\"type\":\"ModelStarted\",\"model_id\":");
                reveal_strlit("{\"type\":\"ModelCompleted\",\"model_id\":");
                reveal_strlit("{\"type\":\"MetricCalculated\",\"metric_name\":");
                reveal_strlit("{\"type\":\"JobCompleted\",\"duration_ms\":");
                reveal_strlit("{\"type\":\"Error\",\"message\":");
                lemma_ev_opens(s@, pos as int, e);
                let m = "{\"type\":\"Error\",\"message\":"@;
                if e is JobStarted {
                    lemma_lit_clash(s@, pos as int, m,
                        "{\"type\":\"JobStarted\",\"models\":"@, 9);
                } else if e is ModelStarted {
                    lemma_lit_clash(s@, pos as int, m,
                        "{\"type\":\"ModelStarted\",\"model_id\":"@, 9);
                } else if e is ModelCompleted {
                    lemma_lit_clash(s@, pos as int, m,
                        "{\"type\":\"ModelCompleted\",\"model_id\":"@, 9);
                } else if e is MetricCalculated {
                    lemma_lit_clash(s@, pos as int, m,
                        "{\"type\":\"MetricCalculated\",\"metric_name\":"@, 9);
                } else if e is JobCompleted {
                    lemma_lit_clash(s@, pos as int, m,
                        "{\"type\":\"JobCompleted\",\"duration_ms\":"@, 9);
                }
            }
        }
        return parse_ev_error(s, pos, p1);
    }
    proof {
        assert forall|e: LogEvent| !ev_at(s@, pos as int, e) by {
            if ev_at(s@, pos as int, e) {
                lemma_ev_opens(s@, pos as int, e);
            }
        }
    }
    None
}

/// What the canonical line of an entry dictates: its five segments at
/// their fixed offsets.
proof fn lemma_entry_shape(s: Seq<char>, e: LogEntry)
    requires
        s == enc_entry(e),
    ensures
        ({
            let a = dec_i64(e.timestamp_ms);
            let b = json_string(e.job_id@);
            let c = enc_event(e.event);
            let q1 = "{\"timestamp\":"@.len() as int;
            let q2 = q1 + a.len();
            let q3 = q2 + ",\"job_id\":"@.len();
            let q4 = q3 + b.len();
            let q5 = q4 + ",\"event\":"@.len();
            let q6 = q5 + c.len();
            &&& s.subrange(0, q1) == "{\"timestamp\":"@
            &&& dec_i64_at(s, q1, e.timestamp_ms)
            &&& s.subrange(q2, q3) == ",\"job_id\":"@
            &&& jstr_at(s, q3, e.job_id@)
            &&& s.subrange(q4, q5) == ",\"event\":"@
            &&& ev_at(s, q5, e.event)
            &&& s.subrange(q6, q6 + 1) == "}"@
            &&& s.len() == q6 + 1
        }),
{
    reveal_strlit("}");
    let whole = enc_entry(e);
    let a = dec_i64(e.timestamp_ms);
    let b = json_string(e.job_id@);
    let c = enc_event(e.event);
    let l1 = "{\"timestamp\":"@.len() as int;
    let a2 = l1 + a.len();
    let a3 = a2 + ",\"job_id\":"@.len();
    let a4 = a3 + b.len();
    let a5 = a4 + ",\"event\":"@.len();
    let a6 = a5 + c.len();
    assert(s.subrange(0, s.len() as int) =~= whole);
    assert(whole.subrange(0, l1) =~= "{\"timestamp\":"@);
    assert(whole.subrange(l1, a2 as int) =~= a);
    assert(whole.subrange(a2, a3) =~= ",\"job_id\":"@);
    assert(whole.subrange(a3, a4 as int) =~= b);
    assert(whole.subrange(a4, a5) =~= ",\"event\":"@);
    assert(whole.subrange(a5, a6 as int) =~= c);
    assert(whole.subrange(a6, a6 + 1) =~= "}"@);
    lemma_seg(s, 0, whole, 0, "{\"timestamp\":"@);
    lemma_seg(s, 0, whole, l1, a);
    lemma_seg(s, 0, whole, a2, ",\"job_id\":"@);
    lemma_seg(s, 0, whole, a3, b);
    lemma_seg(s, 0, whole, a4, ",\"event\":"@);
    lemma_seg(s, 0, whole, a5, c);
    lemma_seg(s, 0, whole, a6, "}"@);
    lemma_seg_char(s, 0, whole, a2);
    reveal_strlit(",\"job_id\":");
    assert(whole[a2] == ',');
    lemma_not_digit_char(',');
}

/// Reads one whole audit-trail line: succeeds only when the entire
/// line is the canonical text of a record, which it returns — and a
/// line that is the canonical text of some record is always read.
#[verifier::rlimit(100)]
pub fn parse_entry(line: &str) -> (r: Option<LogEntry>)
    ensures
        r matches Some(e) ==> line@ == enc_entry(e),
        forall|e: LogEntry| line@ == enc_entry(e) ==> r is Some,
{
    proof {
        assert forall|e: LogEntry| line@ == enc_entry(e) implies ({
            let a = dec_i64(e.timestamp_ms);
            let b = json_string(e.job_id@);
            let c = enc_event(e.event);
            let q1 = "{\"timestamp\":"@.len() as int;
            let q2 = q1 + a.len();
            let q3 = q2 + ",\"job_id\":"@.len();
            let q4 = q3 + b.len();
            let q5 = q4 + ",\"event\":"@.len();
            let q6 = q5 + c.len();
            &&& line@.subrange(0, q1) == "{\"timestamp\":"@
            &&& dec_i64_at(line@, q1, e.timestamp_ms)
            &&& line@.subrange(q2, q3) == ",\"job_id\":"@
            &&& jstr_at(line@, q3, e.job_id@)
            &&& line@.subrange(q4, q5) == ",\"event\":"@
            &&& ev_at(line@, q5, e.event)
            &&& line@.subrange(q6, q6 + 1) == "}"@
            &&& line@.len() == q6 + 1
        }) by {
            lemma_entry_shape(line@, e);
        }
    }
    let slen = line.unicode_len();
    let p1 = match expect_lit(line, 0, "{\"timestamp\":") {
        Some(x) => x,
        None => {
            proof {
                assert forall|e: LogEntry| line@ != enc_entry(e) by {
                    if line@ == enc_entry(e) {}
                }
            }
            return None;
        },
    };
    let (timestamp_ms, p2) = match parse_i64(line, p1) {
        Some(x) => x,
        None => {
            proof {
                assert forall|e: LogEntry| line@ != enc_entry(e) by {
                    if line@ == enc_entry(e) {}
                }
            }
            return None;
        },
    };
    let p3 = match expect_lit(line, p2, ",\"job_id\":") {
        Some(x) => x,
        None => {
            proof {
                assert forall|e: LogEntry| line@ != enc_entry(e) by {
                    if line@ == enc_entry(e) {}
                }
            }
            return None;
        },
    };
    let (job_id, p4) = match parse_json_string(line, p3) {
        Some(x) => x,
        None => {
            proof {
                assert forall|e: LogEntry| line@ != enc_entry(e) by {
                    if line@ == enc_entry(e) {}
                }
            }
            return None;
        },
    };
    let p5 = match expect_lit(line, p4, ",\"event\":") {
        Some(x) => x,
        None => {
            proof {
                assert forall|e: LogEntry| line@ != enc_entry(e) by {
                    if line@ == enc_entry(e) {}
                }
            }
            return None;
        },
    };
    let (event, p6) = match parse_event(line, p5) {
        Some(x) => x,
        None => {
            proof {
                assert forall|e: LogEntry| line@ != enc_entry(e) by {
                    if line@ == enc_entry(e) {}
                }
            }
            return None;
        },
    };
    let p7 = match expect_lit(line, p6, "}") {
        Some(x) => x,
        None => {
            proof {
                assert forall|e: LogEntry| line@ != enc_entry(e) by {
                    if line@ == enc_entry(e) {}
                }
            }
            return None;
        },
    };
    if p7 != slen {
        proof {
            assert forall|e: LogEntry| line@ != enc_entry(e) by {
                if line@ == enc_entry(e) {}
            }
        }
        return None;
    }
    let out = LogEntry { timestamp_ms, job_id, event };
    proof {
        assert(line@.subrange(0, slen as int) =~= line@);
        assert(line@ =~= enc_entry(out));
    }
    Some(out)
}

/// The newline-separated segments of a text from scan position `j`
/// with the current segment starting at `start`: every maximal run
/// between newlines, empty runs skipped.
pub open spec fn split_lines_from(s: Seq<char>, start: int, j: int) -> Seq<Seq<char>>
    decreases s.len() - j
        when 0 <= start <= j <= s.len()
{
    if j == s.len() {
        if start < j {
            seq![s.subrange(start, j)]
        } else {
            Seq::empty()
        }
    } else if s[j] == '\n' {
        (if start < j {
            seq![s.subrange(start, j)]
        } else {
            Seq::empty()
        }) + split_lines_from(s, j + 1, j + 1)
    } else {
        split_lines_from(s, start, j + 1)
    }
}

/// The newline-separated lines of a text, empty lines skipped.
pub open spec fn split_lines(s: Seq<char>) -> Seq<Seq<char>> {
    split_lines_from(s, 0, 0)
}

/// Whether `es` is exactly the replay of `lines`: every line that is
/// the canonical text of some record contributes one record encoding
/// to that line, in line order, and no other records appear.
pub open spec fn matches_replay(lines: Seq<Seq<char>>, es: Seq<LogEntry>) -> bool
    decreases lines.len(),
{
    if lines.len() == 0 {
        es.len() == 0
    } else if exists|e: LogEntry| lines[0] == enc_entry(e) {
        es.len() > 0 && lines[0] == enc_entry(es[0]) && matches_replay(
            lines.drop_first(),
            es.drop_first(),
        )
    } else {
        matches_replay(lines.drop_first(), es)
    }
}

/// Replays compose over concatenation of line lists.
proof fn lemma_replay_concat(a: Seq<Seq<char>>, b: Seq<Seq<char>>, x: Seq<LogEntry>, y: Seq<
    LogEntry,
>)
    requires
        matches_replay(a, x),
        matches_replay(b, y),
    ensures
        matches_replay(a + b, x + y),
    decreases a.len(),
{
    if a.len() == 0 {
        assert(a + b =~= b);
        assert(x + y =~= y);
    } else {
        assert((a + b).drop_first() =~= a.drop_first() + b);
        assert((a + b)[0] == a[0]);
        if exists|e: LogEntry| a[0] == enc_entry(e) {
            assert((x + y)[0] == x[0]);
            assert((x + y).drop_first() =~= x.drop_first() + y);
            lemma_replay_concat(a.drop_first(), b, x.drop_first(), y);
        } else {
            lemma_replay_concat(a.drop_first(), b, x, y);
        }
    }
}

impl EvalLogger {
    /// Builds and renders one audit-trail record for this logger's
    /// job, stamped with the current time: the returned line is the
    /// record's canonical JSON text, ready to append to the log.
    pub fn log_event(&self, event: LogEvent) -> (r: (LogEntry, String))
        ensures
            r.0.job_id == self.job_id,
            r.0.event == event,
            r.1@ == enc_entry(r.0),
    {
        let entry = LogEntry {
            timestamp_ms: now_millis(),
            job_id: self.job_id.clone(),
            event,
        };
        let line = render_entry(&entry);
        (entry, line)
    }

    /// Replays a log's content line by line: the result is exactly
    /// the records of the lines that are canonical record texts, in
    /// file order; a line that does not parse — as after an
    /// interrupted write — is skipped rather than aborting the read.
    pub fn read_logs(&self, content: &str) -> (r: Vec<LogEntry>)
        ensures
            matches_replay(split_lines(content@), r@),
    {
        let n = content.unicode_len();
        let mut r: Vec<LogEntry> = Vec::new();
        let ghost mut done: Seq<Seq<char>> = Seq::empty();
        proof {
            assert(done + split_lines_from(content@, 0, 0) =~= split_lines(content@));
            assert(matches_replay(done, r@));
        }
        let mut start: usize = 0;
        let mut j: usize = 0;
        while j < n
            invariant
                n == content@.len(),
                start <= j <= n,
                split_lines(content@) == done + split_lines_from(
                    content@,
                    start as int,
                    j as int,
                ),
                matches_replay(done, r@),
            decreases n - j,
        {
            if content.get_char(j) == '\n' {
                let ghost done0 = done;
                let ghost r0 = r@;
                if start < j {
                    let line = content.substring_char(start, j);
                    match parse_entry(line) {
                        Some(e) => {
                            proof {
                                assert(content@.subrange(start as int, j as int)
                                    == enc_entry(e));
                            }
                            r.push(e);
                            proof {
                                let seg = seq![content@.subrange(start as int, j as int)];
                                assert(matches_replay(seg, seq![e])) by {
                                    assert(seg[0] == enc_entry(e));
                                    assert(seq![e][0] == e);
                                    assert(seg.drop_first() =~= Seq::<Seq<char>>::empty());
                                    assert(seq![e].drop_first() =~= Seq::<LogEntry>::empty());
                                    assert(matches_replay(
                                        Seq::<Seq<char>>::empty(),
                                        Seq::<LogEntry>::empty(),
                                    ));
                                }
                                lemma_replay_concat(done0, seg, r0, seq![e]);
                                done = done0 + seg;
                                assert(r@ =~= r0 + seq![e]);
                            }
                        },
                        None => {
                            proof {
                                let seg = seq![content@.subrange(start as int, j as int)];
                                assert(matches_replay(seg, Seq::<LogEntry>::empty())) by {
                                    assert(seg.drop_first() =~= Seq::<Seq<char>>::empty());
                                    assert(matches_replay(
                                        Seq::<Seq<char>>::empty(),
                                        Seq::<LogEntry>::empty(),
                                    ));
                                    if exists|e: LogEntry| seg[0] == enc_entry(e) {
                                        let e = choose|e: LogEntry| seg[0] == enc_entry(e);
                                        assert(line@ == enc_entry(e));
                                    }
                                }
                                lemma_replay_concat(done0, seg, r0, Seq::empty());
                                done = done0 + seg;
                                assert(r@ =~= r0 + Seq::<LogEntry>::empty());
                            }
                        },
                    }
                }
                proof {
                    if start < j {
                        assert(split_lines_from(content@, start as int, j as int)
                            =~= seq![content@.subrange(start as int, j as int)]
                            + split_lines_from(content@, j + 1, j + 1));
                        assert(done + split_lines_from(content@, j + 1, j + 1)
                            =~= split_lines(content@)) by {
                            assert(done0 + (seq![content@.subrange(start as int, j as int)]
                                + split_lines_from(content@, j + 1, j + 1)) =~= done
                                + split_lines_from(content@, j + 1, j + 1));
                        }
                    } else {
                        assert(split_lines_from(content@, start as int, j as int)
                            =~= Seq::<Seq<char>>::empty() + split_lines_from(
                            content@,
                            j + 1,
                            j + 1,
                        ));
                        assert(Seq::<Seq<char>>::empty() + split_lines_from(
                            content@,
                            j + 1,
                            j + 1,
                        ) =~= split_lines_from(content@, j + 1, j + 1));
                    }
                }
                start = j + 1;
            }
            j = j + 1;
        }
        let ghost done0 = done;
        let ghost r0 = r@;
        if start < n {
            let line = content.substring_char(start, n);
            match parse_entry(line) {
                Some(e) => {
                    proof {
                        assert(content@.subrange(start as int, n as int) == enc_entry(e));
                    }
                    r.push(e);
                    proof {
                        let seg = seq![content@.subrange(start as int, n as int)];
                        assert(matches_replay(seg, seq![e])) by {
                            assert(seg[0] == enc_entry(e));
                            assert(seq![e][0] == e);
                            assert(seg.drop_first() =~= Seq::<Seq<char>>::empty());
                            assert(seq![e].drop_first() =~= Seq::<LogEntry>::empty());
                            assert(matches_replay(
                                Seq::<Seq<char>>::empty(),
                                Seq::<LogEntry>::empty(),
                            ));
                        }
                        lemma_replay_concat(done0, seg, r0, seq![e]);
                        assert(r@ =~= r0 + seq![e]);
                        assert(split_lines_from(content@, start as int, n as int) =~= seg);
                        assert(split_lines(content@) =~= done0 + seg);
                    }
                },
                None => {
                    proof {
                        let seg = seq![content@.subrange(start as int, n as int)];
                        assert(matches_replay(seg, Seq::<LogEntry>::empty())) by {
                            assert(seg.drop_first() =~= Seq::<Seq<char>>::empty());
                            assert(matches_replay(
                                Seq::<Seq<char>>::empty(),
                                Seq::<LogEntry>::empty(),
                            ));
                            if exists|e: LogEntry| seg[0] == enc_entry(e) {
                                let e = choose|e: LogEntry| seg[0] == enc_entry(e);
                                assert(line@ == enc_entry(e));
                            }
                        }
                        lemma_replay_concat(done0, seg, r0, Seq::empty());
                        assert(r@ =~= r0 + Seq::<LogEntry>::empty());
                        assert(split_lines_from(content@, start as int, n as int) =~= seg);
                        assert(split_lines(content@) =~= done0 + seg);
                    }
                },
            }
        } else {
            proof {
                assert(split_lines_from(content@, start as int, n as int)
                    =~= Seq::<Seq<char>>::empty());
                assert(split_lines(content@) =~= done0);
            }
        }
        r
    }
}

} // verus!
