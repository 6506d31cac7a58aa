//! The diagnostics report as JSON text, for callers on the far side of a C ABI.
use vstd::prelude::*;
use crate::diag::{diags_view, DiagModel, Diagnostic, Severity, Span};
use crate::line_index::{col_fits, line_col_of, LineIndex};
use crate::text::{decimal, hex2_lower, push_char, push_decimal, push_hex2_lower};
use vstd::string::StringSliceAdditionalSpecFns;
use vstd::utf8::encode_utf8;

verus! {

/// A character inside a JSON string: quote, backslash and the control
/// characters escaped, everything else as it is.
pub open spec fn esc_char(c: char) -> Seq<char> {
    if c == '"' {
        "\\\""@
    } else if c == '\\' {
        "\\\\"@
    } else if c == '\n' {
        "\\n"@
    } else if c == '\r' {
        "\\r"@
    } else if c == '\t' {
        "\\t"@
    } else if (c as u32) < 0x20 {
        "\\u00"@ + hex2_lower((c as u32) as u8)
    } else {
        seq![c]
    }
}

/// The escaped characters of `s`, in order.
pub open spec fn esc_body(s: Seq<char>) -> Seq<char>
    decreases s.len(),
{
    if s.len() == 0 {
        Seq::empty()
    } else {
        esc_body(s.drop_last()) + esc_char(s.last())
    }
}

/// `s` as a JSON string literal.
pub open spec fn quoted(s: Seq<char>) -> Seq<char> {
    "\""@ + esc_body(s) + "\""@
}

pub open spec fn severity_name(s: Severity) -> Seq<char> {
    match s {
        Severity::Error => "error"@,
        Severity::Warning => "warning"@,
    }
}

/// The `"hint"` member, when there is a hint.
pub open spec fn hint_json(h: Option<Seq<char>>) -> Seq<char> {
    match h {
        Some(t) => ",\"hint\":"@ + quoted(t),
        None => Seq::empty(),
    }
}

/// The `"related"` member, when there is a related span.
pub open spec fn related_json(src: Seq<u8>, r: Option<Span>) -> Seq<char> {
    match r {
        Some(s) => {
            let (l, c) = line_col_of(src, s.start as int);
            ",\"related\":{\"start\":"@ + decimal(s.start as nat) + ",\"end\":"@ + decimal(s.end as nat)
                + ",\"line\":"@ + decimal(l as nat) + ",\"column\":"@ + decimal(c as nat) + "}"@
        },
        None => Seq::empty(),
    }
}

/// The members of a diagnostic up to its column; its line and column are
/// those of its start.
pub open spec fn diag_head(src: Seq<u8>, d: DiagModel) -> Seq<char> {
    let (l, c) = line_col_of(src, d.span.start as int);
    "{\"code\":\""@ + d.code + "\",\"message\":"@ + quoted(d.message) + ",\"severity\":\""@ + severity_name(
        d.severity,
    ) + "\",\"start\":"@ + decimal(d.span.start as nat) + ",\"end\":"@ + decimal(d.span.end as nat)
        + ",\"line\":"@ + decimal(l as nat) + ",\"column\":"@ + decimal(c as nat)
}

/// One diagnostic as a JSON object.
pub open spec fn diag_json(src: Seq<u8>, d: DiagModel) -> Seq<char> {
    diag_head(src, d) + hint_json(d.hint) + related_json(src, d.related) + "}"@
}

/// The diagnostics as JSON objects separated by commas.
pub open spec fn diags_json(src: Seq<u8>, ds: Seq<DiagModel>) -> Seq<char>
    decreases ds.len(),
{
    if ds.len() == 0 {
        Seq::empty()
    } else if ds.len() == 1 {
        diag_json(src, ds[0])
    } else {
        diags_json(src, ds.drop_last()) + ","@ + diag_json(src, ds.last())
    }
}

/// The whole report: the verdict and every diagnostic.
pub open spec fn report_spec(src: Seq<u8>, ds: Seq<DiagModel>, ok: bool) -> Seq<char> {
    "{\"ok\":"@ + (if ok { "true"@ } else { "false"@ }) + ",\"diagnostics\":["@ + diags_json(src, ds) + "]}"@
}

/// The column of every start offset can be written (see `col_fits`).
pub open spec fn starts_bounded(src: Seq<u8>, ds: Seq<DiagModel>) -> bool {
    forall|i: int|
        0 <= i < ds.len() ==> #[trigger] col_fits(src, ds[i].span.start as int) && match ds[i].related {
            Some(r) => col_fits(src, r.start as int),
            None => true,
        }
}

/// Hand-rolled JSON serialization of the diagnostics report.
pub fn report_json(src: &[u8], diags: &[Diagnostic], ok: bool) -> (out: String)
    requires
        src@.len() <= isize::MAX,
        starts_bounded(src@, diags_view(diags@)),
    ensures
        out@ == report_spec(src@, diags_view(diags@), ok),
{
    let idx = LineIndex::new(src);
    let ghost ds = diags_view(diags@);
    let mut out = String::new();
    out.append("{\"ok\":");
    if ok {
        out.append("true");
    } else {
        out.append("false");
    }
    out.append(",\"diagnostics\":[");
    let ghost head = out@;
    let mut i: usize = 0;
    while i < diags.len()
        invariant
            i <= diags@.len(),
            ds == diags_view(diags@),
            starts_bounded(src@, ds),
            idx.wf(),
            idx.source() == src@,
            out@ == head + diags_json(src@, ds.take(i as int)),
        decreases diags@.len() - i,
    {
        let ghost before = out@;
        if i > 0 {
            out.append(",");
        }
        let ghost mid = out@;
        proof {
            assert(ds[i as int] == diags@[i as int]@);
            assert(col_fits(src@, ds[i as int].span.start as int));
        }
        push_diag(&mut out, &idx, &diags[i]);
        proof {
            assert(ds.take(i + 1).drop_last() =~= ds.take(i as int));
            assert(ds.take(i + 1).last() == ds[i as int]);
            if i == 0 {
                assert(ds.take(0) =~= Seq::<DiagModel>::empty());
            }
            assert(out@ =~= head + diags_json(src@, ds.take(i + 1)));
        }
        i += 1;
    }
    proof {
        assert(ds.take(diags@.len() as int) =~= ds);
    }
    out.append("]}");
    out
}

/// `n` as four bytes, least significant first.
pub open spec fn le32(n: nat) -> Seq<u8>
    recommends
        n < 0x1_0000_0000,
{
    seq![(n % 256) as u8, (n / 256 % 256) as u8, (n / 65536 % 256) as u8, (n / 16777216 % 256) as u8]
}

/// A frame: the byte length of a text, as a 32-bit little-endian count
/// (taken modulo 2^32), followed by the text's UTF-8 bytes.
pub open spec fn frame_spec(text: Seq<char>) -> Seq<u8> {
    let bytes = encode_utf8(text);
    le32(bytes.len() % 0x1_0000_0000) + bytes
}

/// Frames a report for a reader on the far side of a C ABI: its UTF-8 byte
/// length as a little-endian `u32`, then the bytes themselves.
pub fn frame_report(report: &str) -> (out: Vec<u8>)
    ensures
        out@ == frame_spec(report@),
{
    let bytes = report.as_bytes();
    let n: u64 = (bytes.len() as u64) % 0x1_0000_0000;
    let mut out: Vec<u8> = Vec::new();
    out.push((n % 256) as u8);
    out.push((n / 256 % 256) as u8);
    out.push((n / 65536 % 256) as u8);
    out.push((n / 16777216 % 256) as u8);
    let ghost head = out@;
    proof {
        assert(head =~= le32(encode_utf8(report@).len() % 0x1_0000_0000));
    }
    let mut i: usize = 0;
    while i < bytes.len()
        invariant
            i <= bytes@.len(),
            bytes@ == encode_utf8(report@),
            out@ == head + bytes@.take(i as int),
        decreases bytes@.len() - i,
    {
        out.push(bytes[i]);
        proof {
            assert(bytes@.take(i + 1) =~= bytes@.take(i as int).push(bytes@[i as int]));
        }
        i += 1;
    }
    proof {
        assert(bytes@.take(bytes@.len() as int) =~= bytes@);
    }
    out
}

/// Appends one diagnostic as a JSON object.
fn push_diag(out: &mut String, idx: &LineIndex, d: &Diagnostic)
    requires
        idx.wf(),
        col_fits(idx.source(), d.span.start as int),
        match d.related {
            Some(r) => col_fits(idx.source(), r.start as int),
            None => true,
        },
    ensures
        final(out)@ == old(out)@ + diag_json(idx.source(), d@),
{
    push_head(out, idx, d);
    let ghost a = out@;
    match &d.hint {
        Some(h) => {
            out.append(",\"hint\":");
            esc(out, h.as_str());
        },
        None => {},
    }
    proof {
        assert(out@ =~= a + hint_json(d@.hint));
    }
    let ghost b = out@;
    match &d.related {
        Some(r) => push_related(out, idx, r),
        None => {},
    }
    proof {
        assert(out@ =~= b + related_json(idx.source(), d@.related));
    }
    out.append("}");
    proof {
        assert(out@ =~= old(out)@ + diag_json(idx.source(), d@));
    }
}

/// Appends the members of a diagnostic up to its column.
fn push_head(out: &mut String, idx: &LineIndex, d: &Diagnostic)
    requires
        idx.wf(),
        col_fits(idx.source(), d.span.start as int),
    ensures
        final(out)@ == old(out)@ + diag_head(idx.source(), d@),
{
    let (line, col) = idx.line_col(d.span.start);
    let ghost mut acc: Seq<char> = "{\"code\":\""@;
    out.append("{\"code\":\"");
    out.append(d.code);
    proof { acc = acc + d.code@; assert(out@ =~= old(out)@ + acc); }
    out.append("\",\"message\":");
    proof { acc = acc + "\",\"message\":"@; assert(out@ =~= old(out)@ + acc); }
    esc(out, d.message.as_str());
    proof { acc = acc + quoted(d.message@); assert(out@ =~= old(out)@ + acc); }
    out.append(",\"severity\":\"");
    proof { acc = acc + ",\"severity\":\""@; assert(out@ =~= old(out)@ + acc); }
    match d.severity {
        Severity::Error => out.append("error"),
        Severity::Warning => out.append("warning"),
    }
    proof { acc = acc + severity_name(d.severity); assert(out@ =~= old(out)@ + acc); }
    out.append("\",\"start\":");
    proof { acc = acc + "\",\"start\":"@; assert(out@ =~= old(out)@ + acc); }
    push_decimal(out, d.span.start as u128);
    proof { acc = acc + decimal(d.span.start as nat); assert(out@ =~= old(out)@ + acc); }
    out.append(",\"end\":");
    proof { acc = acc + ",\"end\":"@; assert(out@ =~= old(out)@ + acc); }
    push_decimal(out, d.span.end as u128);
    proof { acc = acc + decimal(d.span.end as nat); assert(out@ =~= old(out)@ + acc); }
    out.append(",\"line\":");
    proof { acc = acc + ",\"line\":"@; assert(out@ =~= old(out)@ + acc); }
    push_decimal(out, line as u128);
    proof { acc = acc + decimal(line as nat); assert(out@ =~= old(out)@ + acc); }
    out.append(",\"column\":");
    proof { acc = acc + ",\"column\":"@; assert(out@ =~= old(out)@ + acc); }
    push_decimal(out, col as u128);
    proof {
        acc = acc + decimal(col as nat);
        assert(out@ =~= old(out)@ + acc);
        assert(acc == diag_head(idx.source(), d@));
    }
}

/// Appends the `"related"` member for span `r`.
fn push_related(out: &mut String, idx: &LineIndex, r: &Span)
    requires
        idx.wf(),
        col_fits(idx.source(), r.start as int),
    ensures
        final(out)@ == old(out)@ + related_json(idx.source(), Some(*r)),
{
    let (rl, rc) = idx.line_col(r.start);
    let ghost mut acc: Seq<char> = ",\"related\":{\"start\":"@;
    out.append(",\"related\":{\"start\":");
    push_decimal(out, r.start as u128);
    proof { acc = acc + decimal(r.start as nat); assert(out@ =~= old(out)@ + acc); }
    out.append(",\"end\":");
    proof { acc = acc + ",\"end\":"@; assert(out@ =~= old(out)@ + acc); }
    push_decimal(out, r.end as u128);
    proof { acc = acc + decimal(r.end as nat); assert(out@ =~= old(out)@ + acc); }
    out.append(",\"line\":");
    proof { acc = acc + ",\"line\":"@; assert(out@ =~= old(out)@ + acc); }
    push_decimal(out, rl as u128);
    proof { acc = acc + decimal(rl as nat); assert(out@ =~= old(out)@ + acc); }
    out.append(",\"column\":");
    proof { acc = acc + ",\"column\":"@; assert(out@ =~= old(out)@ + acc); }
    push_decimal(out, rc as u128);
    proof { acc = acc + decimal(rc as nat); assert(out@ =~= old(out)@ + acc); }
    out.append("}");
    proof {
        acc = acc + "}"@;
        assert(out@ =~= old(out)@ + acc);
    }
}

/// Appends `s` as a JSON string literal.
pub fn esc(out: &mut String, s: &str)
    ensures
        final(out)@ == old(out)@ + quoted(s@),
{
    out.append("\"");
    let ghost head = out@;
    let n = s.unicode_len();
    let mut i: usize = 0;
    while i < n
        invariant
            n == s@.len(),
            i <= n,
            out@ == head + esc_body(s@.take(i as int)),
        decreases n - i,
    {
        let c = s.get_char(i);
        let ghost before = out@;
        if c == '"' {
            out.append("\\\"");
        } else if c == '\\' {
            out.append("\\\\");
        } else if c == '\n' {
            out.append("\\n");
        } else if c == '\r' {
            out.append("\\r");
        } else if c == '\t' {
            out.append("\\t");
        } else if (c as u32) < 0x20 {
            out.append("\\u00");
            push_hex2_lower(out, (c as u32) as u8);
        } else {
            push_char(out, c);
        }
        proof {
            assert(s@.take(i + 1).drop_last() =~= s@.take(i as int));
            assert(s@.take(i + 1).last() == c);
            assert(out@ =~= head + esc_body(s@.take(i + 1)));
        }
        i += 1;
    }
    proof {
        assert(s@.take(n as int) =~= s@);
    }
    out.append("\"");
    proof {
        assert(out@ =~= old(out)@ + quoted(s@));
    }
}

} // verus!
