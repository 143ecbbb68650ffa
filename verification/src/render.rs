//! The debug renderer: formats bucket occupancy and chain contents for
//! human inspection. It reads the table and produces text; it has no
//! effect on stored data and no functional contract beyond that.

use vstd::prelude::*;
use vstd::string::StringExecFns;

use bytescolor::ByteColor;

use crate::chain::Entry;
use crate::primitives::push_dec;
use crate::ByteBox;

verus! {

/// The characters that `String::from_utf8_lossy` decodes from a byte
/// sequence: bytes that form valid UTF-8 decode to the text they encode,
/// anything else becomes replacement characters.
pub uninterp spec fn lossy_chars(s: Seq<u8>) -> Seq<char>;

/// Relies on std's String::from_utf8_lossy: the result is a function of
/// the bytes alone.
#[verifier::external_body]
fn lossy_string(b: &[u8]) -> (r: String)
    ensures
        r@ == lossy_chars(b@),
{
    String::from_utf8_lossy(b).into_owned()
}

/// Relies on bytescolor's ByteColor::red for byte slices: it decodes the
/// bytes with String::from_utf8_lossy and wraps the text in the ANSI
/// escape codes for red.
#[verifier::external_body]
fn red_bytes(b: &[u8]) -> (r: String)
    ensures
        r@ == "\u{1b}[31m"@ + lossy_chars(b@) + "\u{1b}[0m"@,
{
    b.red()
}

/// Relies on bytescolor's ByteColor::green for byte slices: it decodes
/// the bytes with String::from_utf8_lossy and wraps the text in the ANSI
/// escape codes for green.
#[verifier::external_body]
fn green_bytes(b: &[u8]) -> (r: String)
    ensures
        r@ == "\u{1b}[32m"@ + lossy_chars(b@) + "\u{1b}[0m"@,
{
    b.green()
}

/// Relies on bytescolor's ByteColor::yellow for byte slices: it decodes
/// the bytes with String::from_utf8_lossy and wraps the text in the ANSI
/// escape codes for yellow.
#[verifier::external_body]
fn yellow_bytes(b: &[u8]) -> (r: String)
    ensures
        r@ == "\u{1b}[33m"@ + lossy_chars(b@) + "\u{1b}[0m"@,
{
    b.yellow()
}

/// Relies on bytescolor's ByteColor::magenta for byte slices: it decodes
/// the bytes with String::from_utf8_lossy and wraps the text in the ANSI
/// escape codes for magenta.
#[verifier::external_body]
fn magenta_bytes(b: &[u8]) -> (r: String)
    ensures
        r@ == "\u{1b}[35m"@ + lossy_chars(b@) + "\u{1b}[0m"@,
{
    b.magenta()
}

/// Relies on bytescolor's ByteColor::blue for byte slices: it decodes
/// the bytes with String::from_utf8_lossy and wraps the text in the ANSI
/// escape codes for blue.
#[verifier::external_body]
fn blue_bytes(b: &[u8]) -> (r: String)
    ensures
        r@ == "\u{1b}[34m"@ + lossy_chars(b@) + "\u{1b}[0m"@,
{
    b.blue()
}

/// Appends a byte string to the output.
fn push_bytes(out: &mut Vec<u8>, s: &[u8])
    ensures
        final(out)@ == old(out)@ + s@,
{
    let mut i: usize = 0;
    while i < s.len()
        invariant
            i <= s@.len(),
            out@ == old(out)@ + s@.subrange(0, i as int),
        decreases s@.len() - i,
    {
        out.push(s[i]);
        proof {
            assert(out@ =~= old(out)@ + s@.subrange(0, i + 1));
        }
        i = i + 1;
    }
    proof {
        assert(out@ =~= old(out)@ + s@);
    }
}

/// Appends `n` copies of one byte to the output.
fn push_repeat(out: &mut Vec<u8>, b: u8, n: usize)
    ensures
        final(out)@ == old(out)@ + Seq::new(n as nat, |i: int| b),
{
    let mut i: usize = 0;
    while i < n
        invariant
            i <= n,
            out@ == old(out)@ + Seq::new(i as nat, |j: int| b),
        decreases n - i,
    {
        out.push(b);
        proof {
            assert(out@ =~= old(out)@ + Seq::new((i + 1) as nat, |j: int| b));
        }
        i = i + 1;
    }
}

/// Appends the frame line `    +---+  +-<dashes>-+`.
fn push_frame(out: &mut Vec<u8>, width: usize) {
    push_bytes(out, "    +---+  +-".as_bytes());
    push_repeat(out, 45, width);
    push_bytes(out, "-+\n".as_bytes());
}

/// Appends one entry's box: its key row and its value row, framed.
fn render_entry(out: &mut Vec<u8>, e: &Entry) {
    let k_len = e.key.len();
    let v_len = e.value.len();
    let longest = if k_len > v_len {
        k_len
    } else {
        v_len
    };
    push_frame(out, longest);
    push_bytes(out, "    | k |->| ".as_bytes());
    push_bytes(out, e.key.as_slice());
    push_repeat(out, 32, longest - k_len);
    push_bytes(out, " |\n".as_bytes());
    push_frame(out, longest);
    push_bytes(out, "    | v |->| ".as_bytes());
    push_bytes(out, e.value.as_slice());
    push_repeat(out, 32, longest - v_len);
    push_bytes(out, " |\n".as_bytes());
    push_frame(out, longest);
}

/// Appends the boxes of every entry in a chain, head first.
fn render_chain(out: &mut Vec<u8>, o: &Option<Box<Entry>>)
    decreases *o,
{
    match o {
        None => {}
        Some(e) => {
            render_entry(out, e);
            render_chain(out, &e.next);
        }
    }
}

impl ByteBox {
    /// Produces a plain-text visualization of the table: a header with
    /// the stored count and the allocation, then each cell with the boxes
    /// of its entries. Diagnostic only: the text is not part of the
    /// functional contract, and rendering reads but never changes the
    /// stored data.
    pub fn view_table(&self) -> String
        requires
            self.well_formed(),
    {
        let mut out: Vec<u8> = Vec::new();
        push_repeat(&mut out, 45, 48);
        push_bytes(&mut out, "\n".as_bytes());
        push_bytes(&mut out, "ByteBox, number of cell (".as_bytes());
        push_dec(self.len() as u128, &mut out);
        push_bytes(&mut out, "), allocation (".as_bytes());
        push_dec(self.allocation() as u128, &mut out);
        push_bytes(&mut out, ")\n".as_bytes());
        let mut i: usize = 0;
        while i < self.cells.len()
            invariant
                i <= self.cells@.len(),
            decreases self.cells@.len() - i,
        {
            push_repeat(&mut out, 45, 48);
            push_bytes(&mut out, "\n  Cell ".as_bytes());
            push_dec(i as u128, &mut out);
            push_bytes(&mut out, ":\n".as_bytes());
            render_chain(&mut out, &self.cells[i]);
            push_bytes(&mut out, "    Empty\n".as_bytes());
            i = i + 1;
        }
        push_repeat(&mut out, 45, 48);
        push_bytes(&mut out, "\n".as_bytes());
        lossy_string(out.as_slice())
    }

    /// Produces the colorized variant of [`ByteBox::view_table`], with
    /// the ANSI colors applied through the bytescolor crate: headers in
    /// blue and magenta, separators and counters in red, keys in green,
    /// values in yellow. Diagnostic only.
    pub fn view_table_color(&self) -> String
        requires
            self.well_formed(),
    {
        let mut sep: Vec<u8> = Vec::new();
        push_repeat(&mut sep, 45, 48);
        let mut out: String = blue_bytes(sep.as_slice());
        out.append("\n");
        out.append(blue_bytes("ByteBox".as_bytes()).as_str());
        out.append(", number of cell (");
        let mut count: Vec<u8> = Vec::new();
        push_dec(self.len() as u128, &mut count);
        out.append(red_bytes(count.as_slice()).as_str());
        out.append("), allocation (");
        let mut alloc: Vec<u8> = Vec::new();
        push_dec(self.allocation() as u128, &mut alloc);
        out.append(red_bytes(alloc.as_slice()).as_str());
        out.append(")\n");
        let mut i: usize = 0;
        while i < self.cells.len()
            invariant
                i <= self.cells@.len(),
            decreases self.cells@.len() - i,
        {
            out.append(red_bytes(sep.as_slice()).as_str());
            out.append("\n");
            let mut header: Vec<u8> = Vec::new();
            push_bytes(&mut header, "  Cell ".as_bytes());
            push_dec(i as u128, &mut header);
            push_bytes(&mut header, ":".as_bytes());
            out.append(magenta_bytes(header.as_slice()).as_str());
            out.append("\n");
            render_chain_color(&mut out, &self.cells[i]);
            out.append("    ");
            out.append(red_bytes("Empty".as_bytes()).as_str());
            out.append("\n");
            i = i + 1;
        }
        out.append(red_bytes(sep.as_slice()).as_str());
        out.append("\n");
        out
    }
}

/// Appends a chain's pairs to a one-line rendering, `"key": "value"`
/// separated by commas; reports whether any pair has been written yet.
fn render_chain_compact(out: &mut Vec<u8>, o: &Option<Box<Entry>>, first: bool) -> bool
    decreases *o,
{
    match o {
        None => first,
        Some(e) => {
            if !first {
                push_bytes(out, ", ".as_bytes());
            }
            out.push(34);
            push_bytes(out, e.key.as_slice());
            push_bytes(out, "\": \"".as_bytes());
            push_bytes(out, e.value.as_slice());
            out.push(34);
            render_chain_compact(out, &e.next, false)
        }
    }
}

impl ByteBox {
    /// The compact one-line rendering of the stored pairs in iteration
    /// order, `{"key": "value", ...}`, as the table is shown in readable
    /// form. Diagnostic only.
    pub fn display_string(&self) -> String {
        let mut out: Vec<u8> = Vec::new();
        out.push(123);
        let mut first = true;
        let mut i: usize = 0;
        while i < self.cells.len()
            invariant
                i <= self.cells@.len(),
            decreases self.cells@.len() - i,
        {
            first = render_chain_compact(&mut out, &self.cells[i], first);
            i = i + 1;
        }
        out.push(125);
        lossy_string(out.as_slice())
    }
}

/// Appends the colorized boxes of every entry in a chain, head first:
/// keys in green, values in yellow.
fn render_chain_color(out: &mut String, o: &Option<Box<Entry>>)
    decreases *o,
{
    match o {
        None => {}
        Some(e) => {
            let k_len = e.key.len();
            let v_len = e.value.len();
            let longest = if k_len > v_len {
                k_len
            } else {
                v_len
            };
            let mut frame: Vec<u8> = Vec::new();
            push_frame(&mut frame, longest);
            out.append(lossy_string(frame.as_slice()).as_str());
            out.append("    | k |->| ");
            out.append(green_bytes(e.key.as_slice()).as_str());
            let mut pad_k: Vec<u8> = Vec::new();
            push_repeat(&mut pad_k, 32, longest - k_len);
            out.append(lossy_string(pad_k.as_slice()).as_str());
            out.append(" |\n");
            out.append(lossy_string(frame.as_slice()).as_str());
            out.append("    | v |->| ");
            out.append(yellow_bytes(e.value.as_slice()).as_str());
            let mut pad_v: Vec<u8> = Vec::new();
            push_repeat(&mut pad_v, 32, longest - v_len);
            out.append(lossy_string(pad_v.as_slice()).as_str());
            out.append(" |\n");
            out.append(lossy_string(frame.as_slice()).as_str());
            render_chain_color(out, &e.next);
        }
    }
}

} // verus!
