//! Label and tooltip strategies shipped with the library, and the
//! randomly drawn six-digit print identifier their tooltips carry.

use vstd::prelude::*;
use vstd::utf8::{
    valid_utf8, encode_utf8, decode_utf8, partial_valid_utf8, partial_valid_utf8_extend_ascii_block,
    encode_utf8_valid_utf8, encode_utf8_decode_utf8, valid_utf8_concat, is_leading_byte_width_1,
};
use vstd::string::StringSliceAdditionalSpecFns;
use crate::codec::{dec_rep, lemma_dec_rep_digits, lemma_dec_rep_len, pow10, emit_digits, is_digit};
use crate::poster::Annotator;

verus! {

/// A run of canonical decimal digits is valid UTF-8.
pub proof fn lemma_dec_rep_valid_utf8(n: nat)
    ensures
        valid_utf8(dec_rep(n)),
{
    let d = dec_rep(n);
    lemma_dec_rep_digits(n);
    assert(d.subrange(0, 0) =~= Seq::<u8>::empty());
    assert(valid_utf8(Seq::<u8>::empty()));
    assert(partial_valid_utf8(d, 0));
    assert forall|i: int| 0 <= 0 <= i < d.len() <= d.len() implies is_leading_byte_width_1(
        #[trigger] d[i],
    ) by {
        assert(is_digit(d[i]));
    }
    partial_valid_utf8_extend_ascii_block(d, 0, d.len() as int);
    assert(d.subrange(0, d.len() as int) =~= d);
}

/// Turns a byte buffer known to be valid UTF-8 into the string that
/// views exactly those bytes.
fn bytes_to_string(v: &Vec<u8>) -> (s: String)
    requires
        valid_utf8(v@),
    ensures
        s@ == decode_utf8(v@),
        encode_utf8(s@) == v@,
{
    match core::str::from_utf8(v.as_slice()) {
        Ok(st) => {
            proof {
                encode_utf8_decode_utf8(st@);
                vstd::utf8::decode_utf8_encode_utf8(v@);
            }
            st.to_owned()
        },
        Err(_) => {
            proof {
                assert(false);
            }
            String::new()
        },
    }
}

/// A strategy that returns the same label and tooltip for every tile:
/// the forced-annotation path.
pub struct FixedAnnotator {
    pub label: String,
    pub tooltip: String,
}

impl Annotator for FixedAnnotator {
    open spec fn wf(&self) -> bool {
        true
    }

    open spec fn spec_label(&self, col: int, row: int, grid_w: int, grid_h: int) -> Seq<char> {
        self.label@
    }

    open spec fn spec_tooltip(&self, col: int, row: int, grid_w: int, grid_h: int) -> Seq<char> {
        self.tooltip@
    }

    fn label(&self, col: u32, row: u32, grid_w: u32, grid_h: u32) -> (s: String) {
        self.label.clone()
    }

    fn tooltip(&self, col: u32, row: u32, grid_w: u32, grid_h: u32) -> (s: String) {
        self.tooltip.clone()
    }
}

/// The default strategy: a label naming the tile's one-based position
/// within the grid, and a tooltip listing the print identifier, the
/// name, the grid extent and the tile coordinate.
pub struct GridAnnotator {
    pub name: String,
    pub print_id: String,
}

/// Bytes of the default label for the tile at `(col, row)` of a
/// `grid_w` by `grid_h` grid: the name, then the one-based position
/// over the extent.
pub open spec fn label_bytes(
    name: Seq<char>,
    col: int,
    row: int,
    grid_w: int,
    grid_h: int,
) -> Seq<u8> {
    encode_utf8(name) + encode_utf8(": ("@) + dec_rep((col + 1) as nat) + encode_utf8(","@)
        + dec_rep((row + 1) as nat) + encode_utf8(")/("@) + dec_rep(grid_w as nat) + encode_utf8(
        "x"@,
    ) + dec_rep(grid_h as nat) + encode_utf8(")"@)
}

/// Bytes of the default tooltip: the conversion run's print identifier,
/// the human-readable name, the grid extent, the tile's own coordinate
/// and a static informational tag.
pub open spec fn tooltip_bytes(
    print_id: Seq<char>,
    name: Seq<char>,
    col: int,
    row: int,
    grid_w: int,
    grid_h: int,
) -> Seq<u8> {
    encode_utf8("print:"@) + encode_utf8(print_id) + encode_utf8(" name:"@) + encode_utf8(name)
        + encode_utf8(" extent:"@) + dec_rep(grid_w as nat) + encode_utf8("x"@) + dec_rep(
        grid_h as nat,
    ) + encode_utf8(" pos:"@) + dec_rep(col as nat) + encode_utf8(","@) + dec_rep(row as nat)
        + encode_utf8(" info:img2poster"@)
}


/// The default label bytes are valid UTF-8: every piece is.
proof fn lemma_label_bytes_valid(name: Seq<char>, col: int, row: int, grid_w: int, grid_h: int)
    ensures
        valid_utf8(label_bytes(name, col, row, grid_w, grid_h)),
{
    lemma_dec_rep_valid_utf8((col + 1) as nat);
    lemma_dec_rep_valid_utf8((row + 1) as nat);
    lemma_dec_rep_valid_utf8(grid_w as nat);
    lemma_dec_rep_valid_utf8(grid_h as nat);
    encode_utf8_valid_utf8(name);
    encode_utf8_valid_utf8(": ("@);
    encode_utf8_valid_utf8(","@);
    encode_utf8_valid_utf8(")/("@);
    encode_utf8_valid_utf8("x"@);
    encode_utf8_valid_utf8(")"@);
    let p1 = encode_utf8(name);
    let p2 = p1 + encode_utf8(": ("@);
    valid_utf8_concat(p1, encode_utf8(": ("@));
    let p3 = p2 + dec_rep((col + 1) as nat);
    valid_utf8_concat(p2, dec_rep((col + 1) as nat));
    let p4 = p3 + encode_utf8(","@);
    valid_utf8_concat(p3, encode_utf8(","@));
    let p5 = p4 + dec_rep((row + 1) as nat);
    valid_utf8_concat(p4, dec_rep((row + 1) as nat));
    let p6 = p5 + encode_utf8(")/("@);
    valid_utf8_concat(p5, encode_utf8(")/("@));
    let p7 = p6 + dec_rep(grid_w as nat);
    valid_utf8_concat(p6, dec_rep(grid_w as nat));
    let p8 = p7 + encode_utf8("x"@);
    valid_utf8_concat(p7, encode_utf8("x"@));
    let p9 = p8 + dec_rep(grid_h as nat);
    valid_utf8_concat(p8, dec_rep(grid_h as nat));
    valid_utf8_concat(p9, encode_utf8(")"@));
}

/// The default tooltip bytes are valid UTF-8: every piece is.
proof fn lemma_tooltip_bytes_valid(
    print_id: Seq<char>,
    name: Seq<char>,
    col: int,
    row: int,
    grid_w: int,
    grid_h: int,
)
    ensures
        valid_utf8(tooltip_bytes(print_id, name, col, row, grid_w, grid_h)),
{
    lemma_dec_rep_valid_utf8(grid_w as nat);
    lemma_dec_rep_valid_utf8(grid_h as nat);
    lemma_dec_rep_valid_utf8(col as nat);
    lemma_dec_rep_valid_utf8(row as nat);
    encode_utf8_valid_utf8("print:"@);
    encode_utf8_valid_utf8(print_id);
    encode_utf8_valid_utf8(" name:"@);
    encode_utf8_valid_utf8(name);
    encode_utf8_valid_utf8(" extent:"@);
    encode_utf8_valid_utf8("x"@);
    encode_utf8_valid_utf8(" pos:"@);
    encode_utf8_valid_utf8(","@);
    encode_utf8_valid_utf8(" info:img2poster"@);
    let p1 = encode_utf8("print:"@);
    let p2 = p1 + encode_utf8(print_id);
    valid_utf8_concat(p1, encode_utf8(print_id));
    let p3 = p2 + encode_utf8(" name:"@);
    valid_utf8_concat(p2, encode_utf8(" name:"@));
    let p4 = p3 + encode_utf8(name);
    valid_utf8_concat(p3, encode_utf8(name));
    let p5 = p4 + encode_utf8(" extent:"@);
    valid_utf8_concat(p4, encode_utf8(" extent:"@));
    let p6 = p5 + dec_rep(grid_w as nat);
    valid_utf8_concat(p5, dec_rep(grid_w as nat));
    let p7 = p6 + encode_utf8("x"@);
    valid_utf8_concat(p6, encode_utf8("x"@));
    let p8 = p7 + dec_rep(grid_h as nat);
    valid_utf8_concat(p7, dec_rep(grid_h as nat));
    let p9 = p8 + encode_utf8(" pos:"@);
    valid_utf8_concat(p8, encode_utf8(" pos:"@));
    let p10 = p9 + dec_rep(col as nat);
    valid_utf8_concat(p9, dec_rep(col as nat));
    let p11 = p10 + encode_utf8(","@);
    valid_utf8_concat(p10, encode_utf8(","@));
    let p12 = p11 + dec_rep(row as nat);
    valid_utf8_concat(p11, dec_rep(row as nat));
    valid_utf8_concat(p12, encode_utf8(" info:img2poster"@));
}

impl Annotator for GridAnnotator {
    open spec fn wf(&self) -> bool {
        true
    }

    open spec fn spec_label(&self, col: int, row: int, grid_w: int, grid_h: int) -> Seq<char> {
        decode_utf8(label_bytes(self.name@, col, row, grid_w, grid_h))
    }

    open spec fn spec_tooltip(&self, col: int, row: int, grid_w: int, grid_h: int) -> Seq<char> {
        decode_utf8(tooltip_bytes(self.print_id@, self.name@, col, row, grid_w, grid_h))
    }

    fn label(&self, col: u32, row: u32, grid_w: u32, grid_h: u32) -> (s: String) {
        let mut out: Vec<u8> = Vec::new();
        out.extend_from_slice(self.name.as_str().as_bytes());
        out.extend_from_slice(": (".as_bytes());
        emit_digits(&mut out, col + 1);
        out.extend_from_slice(",".as_bytes());
        emit_digits(&mut out, row + 1);
        out.extend_from_slice(")/(".as_bytes());
        emit_digits(&mut out, grid_w);
        out.extend_from_slice("x".as_bytes());
        emit_digits(&mut out, grid_h);
        out.extend_from_slice(")".as_bytes());
        proof {
            assert(out@ =~= label_bytes(
                self.name@,
                col as int,
                row as int,
                grid_w as int,
                grid_h as int,
            ));
            lemma_label_bytes_valid(self.name@, col as int, row as int, grid_w as int, grid_h as int);
        }
        bytes_to_string(&out)
    }

    fn tooltip(&self, col: u32, row: u32, grid_w: u32, grid_h: u32) -> (s: String) {
        let mut out: Vec<u8> = Vec::new();
        out.extend_from_slice("print:".as_bytes());
        out.extend_from_slice(self.print_id.as_str().as_bytes());
        out.extend_from_slice(" name:".as_bytes());
        out.extend_from_slice(self.name.as_str().as_bytes());
        out.extend_from_slice(" extent:".as_bytes());
        emit_digits(&mut out, grid_w);
        out.extend_from_slice("x".as_bytes());
        emit_digits(&mut out, grid_h);
        out.extend_from_slice(" pos:".as_bytes());
        emit_digits(&mut out, col);
        out.extend_from_slice(",".as_bytes());
        emit_digits(&mut out, row);
        out.extend_from_slice(" info:img2poster".as_bytes());
        proof {
            assert(out@ =~= tooltip_bytes(
                self.print_id@,
                self.name@,
                col as int,
                row as int,
                grid_w as int,
                grid_h as int,
            ));
            lemma_tooltip_bytes_valid(
                self.print_id@,
                self.name@,
                col as int,
                row as int,
                grid_w as int,
                grid_h as int,
            );
        }
        bytes_to_string(&out)
    }
}


/// The annotation strategy of the conversion front end: each of the
/// label and the tooltip is either forced to a fixed string or produced
/// in the default grid form.
pub struct PosterAnnotator {
    pub name: String,
    pub print_id: String,
    pub forced_label: Option<String>,
    pub forced_tooltip: Option<String>,
}

impl Annotator for PosterAnnotator {
    open spec fn wf(&self) -> bool {
        true
    }

    open spec fn spec_label(&self, col: int, row: int, grid_w: int, grid_h: int) -> Seq<char> {
        match self.forced_label {
            Some(l) => l@,
            None => decode_utf8(label_bytes(self.name@, col, row, grid_w, grid_h)),
        }
    }

    open spec fn spec_tooltip(&self, col: int, row: int, grid_w: int, grid_h: int) -> Seq<char> {
        match self.forced_tooltip {
            Some(t) => t@,
            None => decode_utf8(
                tooltip_bytes(self.print_id@, self.name@, col, row, grid_w, grid_h),
            ),
        }
    }

    fn label(&self, col: u32, row: u32, grid_w: u32, grid_h: u32) -> (s: String) {
        match &self.forced_label {
            Some(l) => l.clone(),
            None => {
                let gen = GridAnnotator { name: self.name.clone(), print_id: self.print_id.clone() };
                let s = gen.label(col, row, grid_w, grid_h);
                proof {
                    assert(gen.name@ == self.name@);
                }
                s
            },
        }
    }

    fn tooltip(&self, col: u32, row: u32, grid_w: u32, grid_h: u32) -> (s: String) {
        match &self.forced_tooltip {
            Some(t) => t.clone(),
            None => {
                let gen = GridAnnotator { name: self.name.clone(), print_id: self.print_id.clone() };
                let s = gen.tooltip(col, row, grid_w, grid_h);
                proof {
                    assert(gen.name@ == self.name@ && gen.print_id@ == self.print_id@);
                }
                s
            },
        }
    }
}

/// Relies on rand's `Rng::gen_range` over `0..bound`: a uniformly drawn
/// value below the bound. The range is non-empty, so the call cannot
/// panic.
#[verifier::external_body]
fn random_below(bound: u32) -> (r: u32)
    requires
        bound >= 1,
    ensures
        r < bound,
{
    rand::Rng::gen_range(&mut rand::thread_rng(), 0..bound)
}

/// The digits of `n` padded with leading zeros to six places.
pub open spec fn zero_pad6(n: nat) -> Seq<u8> {
    Seq::new((6 - dec_rep(n).len()) as nat, |i: int| 48u8) + dec_rep(n)
}

/// Formats a print identifier: six decimal digits, zero padded.
pub fn format_print_id(n: u32) -> (s: String)
    requires
        n < 1000000,
    ensures
        s@ == decode_utf8(zero_pad6(n as nat)),
        encode_utf8(s@) == zero_pad6(n as nat),
{
    proof {
        assert(pow10(6) == 1000000) by {
            reveal_with_fuel(pow10, 7);
        }
        lemma_dec_rep_len(n as nat, 6);
        lemma_dec_rep_digits(n as nat);
    }
    let mut out: Vec<u8> = Vec::new();
    let mut tmp: Vec<u8> = Vec::new();
    emit_digits(&mut tmp, n);
    let mut pad: usize = 6 - tmp.len();
    while pad > 0
        invariant
            out@ =~= Seq::new((6 - tmp@.len() - pad) as nat, |i: int| 48u8),
            tmp@.len() + pad <= 6,
        decreases pad,
    {
        out.push(48);
        pad = pad - 1;
        proof {
            assert(out@ =~= Seq::new((6 - tmp@.len() - pad) as nat, |i: int| 48u8));
        }
    }
    out.extend_from_slice(tmp.as_slice());
    proof {
        assert(out@ =~= zero_pad6(n as nat));
        lemma_dec_rep_valid_utf8(n as nat);
        let zeros = Seq::new((6 - dec_rep(n as nat).len()) as nat, |i: int| 48u8);
        assert(partial_valid_utf8(zeros, 0)) by {
            assert(zeros.subrange(0, 0) =~= Seq::<u8>::empty());
        }
        assert forall|i: int| 0 <= 0 <= i < zeros.len() <= zeros.len() implies
            is_leading_byte_width_1(#[trigger] zeros[i]) by {
        }
        partial_valid_utf8_extend_ascii_block(zeros, 0, zeros.len() as int);
        assert(zeros.subrange(0, zeros.len() as int) =~= zeros);
        broadcast use valid_utf8_concat;

    }
    bytes_to_string(&out)
}

/// Draws a fresh six-digit print identifier for one conversion run.
/// The value is random; what holds of every outcome is that the result
/// is the zero-padded decimal form of some draw below the bound.
pub fn fresh_print_id() -> (s: String)
    ensures
        exists|n: nat| n < 1000000 && s@ == decode_utf8(#[trigger] zero_pad6(n)),
{
    let n = random_below(999999);
    let s = format_print_id(n);
    proof {
        assert((n as nat) < 1000000 && s@ == decode_utf8(zero_pad6(n as nat)));
    }
    s
}

} // verus!
