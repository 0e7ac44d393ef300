//! Print jobs as sequences of printer operations.
//!
//! The library decides what is printed and in which style; the program that
//! drives the printer performs each operation in order.
use vstd::prelude::*;
use crate::graphics::{Bitmap, BitmapModel, bit_image, encode_bit_image};
use crate::strings::{chars_of, join_with, lacks, law_lines_rejoin, lines, split_lines, string_from_chars, strings_view};

verus! {

/// Horizontal alignment of printed text.
#[derive(PartialEq, Eq, Structural, Clone, Copy, Debug)]
pub enum Align {
    Left,
    Center,
}

/// One printer operation.
#[derive(Debug, PartialEq, Eq)]
pub enum PrintOp {
    /// Reset the printer to its initial state.
    Init,
    /// Set the alignment of the lines that follow.
    Justify(Align),
    /// Switch emphasised (bold) printing on or off.
    Bold(bool),
    /// Switch upside-down printing on or off.
    UpsideDown(bool),
    /// Print a line of text.
    WriteLine(String),
    /// Send raw command bytes.
    Raw(Vec<u8>),
    /// Set the line feed pitch, in 1/144 inch.
    LineSpacing(u8),
    /// Go back to the default line feed pitch.
    ResetLineSpacing,
    /// Feed the paper by one line.
    Feed,
    /// Feed the paper by the given number of lines.
    Feeds(u8),
    /// Print what was sent.
    Print,
    /// Print what was sent and cut the paper.
    PrintCut,
}

/// A printer operation with the text of its line taken as characters.
pub enum OpModel {
    Init,
    Justify(Align),
    Bold(bool),
    UpsideDown(bool),
    WriteLine(Seq<char>),
    Raw(Seq<u8>),
    LineSpacing(u8),
    ResetLineSpacing,
    Feed,
    Feeds(u8),
    Print,
    PrintCut,
}

impl View for PrintOp {
    type V = OpModel;

    open spec fn view(&self) -> OpModel {
        match self {
            PrintOp::Init => OpModel::Init,
            PrintOp::Justify(a) => OpModel::Justify(*a),
            PrintOp::Bold(b) => OpModel::Bold(*b),
            PrintOp::UpsideDown(b) => OpModel::UpsideDown(*b),
            PrintOp::WriteLine(s) => OpModel::WriteLine(s@),
            PrintOp::Raw(b) => OpModel::Raw(b@),
            PrintOp::LineSpacing(n) => OpModel::LineSpacing(*n),
            PrintOp::ResetLineSpacing => OpModel::ResetLineSpacing,
            PrintOp::Feed => OpModel::Feed,
            PrintOp::Feeds(n) => OpModel::Feeds(*n),
            PrintOp::Print => OpModel::Print,
            PrintOp::PrintCut => OpModel::PrintCut,
        }
    }
}

/// The views of a sequence of operations.
pub open spec fn ops_view(ops: Seq<PrintOp>) -> Seq<OpModel> {
    ops.map_values(|op: PrintOp| op@)
}

/// One `WriteLine` per line, in order.
pub open spec fn write_lines(ls: Seq<Seq<char>>) -> Seq<OpModel> {
    ls.map_values(|l: Seq<char>| OpModel::WriteLine(l))
}

/// The operations after pushing `op`.
pub proof fn lemma_ops_view_push(ops: Seq<PrintOp>, op: PrintOp)
    ensures
        ops_view(ops.push(op)) == ops_view(ops).push(op@),
{
    assert(ops_view(ops.push(op)) =~= ops_view(ops).push(op@));
}

/// Appends `op` to `ops`.
pub fn push_op(ops: &mut Vec<PrintOp>, op: PrintOp)
    ensures
        ops_view(final(ops)@) == ops_view(old(ops)@).push(op@),
{
    proof {
        lemma_ops_view_push(ops@, op);
    }
    ops.push(op);
}

/// Appends one `WriteLine` per line of `ls` to `ops`.
pub fn push_lines(ops: &mut Vec<PrintOp>, ls: &Vec<Vec<char>>)
    ensures
        ops_view(final(ops)@) == ops_view(old(ops)@) + write_lines(ls@.map_values(|l: Vec<char>| l@)),
{
    let ghost lv = ls@.map_values(|l: Vec<char>| l@);
    let mut i: usize = 0;
    while i < ls.len()
        invariant
            i <= ls.len(),
            lv == ls@.map_values(|l: Vec<char>| l@),
            ops_view(ops@) == ops_view(old(ops)@) + write_lines(lv.take(i as int)),
        decreases ls.len() - i,
    {
        let line = string_from_chars(ls[i].as_slice());
        push_op(ops, PrintOp::WriteLine(line));
        assert(write_lines(lv.take(i + 1)) =~= write_lines(lv.take(i as int)).push(
            OpModel::WriteLine(lv[i as int]),
        ));
        i = i + 1;
    }
    assert(lv.take(ls.len() as int) =~= lv);
}

/// The operations that print `text`: each of its lines, then a cut.
pub open spec fn text_ops(text: Seq<char>) -> Seq<OpModel> {
    seq![OpModel::Init] + write_lines(lines(text)) + seq![OpModel::PrintCut]
}

/// The job that prints `text` line by line and cuts the paper afterwards.
pub fn text_job(text: &str) -> (ops: Vec<PrintOp>)
    ensures
        ops_view(ops@) == text_ops(text@),
{
    let chars = chars_of(text);
    let ls = split_lines(chars.as_slice());
    let mut ops: Vec<PrintOp> = Vec::new();
    assert(ops_view(ops@) =~= Seq::<OpModel>::empty());
    push_op(&mut ops, PrintOp::Init);
    push_lines(&mut ops, &ls);
    push_op(&mut ops, PrintOp::PrintCut);
    assert(ops_view(ops@) =~= text_ops(text@));
    ops
}

/// Appends one `WriteLine` per string of `ls` to `ops`.
pub fn push_strings(ops: &mut Vec<PrintOp>, ls: &Vec<String>)
    ensures
        ops_view(final(ops)@) == ops_view(old(ops)@) + write_lines(strings_view(ls@)),
{
    let ghost lv = strings_view(ls@);
    let mut i: usize = 0;
    while i < ls.len()
        invariant
            i <= ls.len(),
            lv == strings_view(ls@),
            ops_view(ops@) == ops_view(old(ops)@) + write_lines(lv.take(i as int)),
        decreases ls.len() - i,
    {
        let line = ls[i].clone();
        push_op(ops, PrintOp::WriteLine(line));
        assert(write_lines(lv.take(i + 1)) =~= write_lines(lv.take(i as int)).push(
            OpModel::WriteLine(lv[i as int]),
        ));
        i = i + 1;
    }
    assert(lv.take(ls.len() as int) =~= lv);
}

/// `ESC *` density of printed images (8-dot single density).
pub const IMAGE_MODE: u8 = 0;
/// Line feed pitch per 8-dot band of a printed image, in 1/144 inch: the
/// TM-U220's 72 dpi vertical pitch, so that bands join without gaps.
pub const IMAGE_BAND_FEED: u8 = 16;

/// The operations that print a bitmap as one contiguous image: unidirectional
/// printing (`ESC U 1`) so that vertical lines stay crisp, left alignment, a
/// line feed pitch of `band_feed` (one band), the bit image in `ESC *` density
/// `mode`, the default pitch again, and a line feed.
pub open spec fn image_ops(m: BitmapModel, mode: u8, band_feed: u8) -> Seq<OpModel> {
    seq![
        OpModel::Raw(seq![0x1Bu8, 0x55u8, 0x01u8]),
        OpModel::Justify(Align::Left),
        OpModel::LineSpacing(band_feed),
        OpModel::Raw(bit_image(m, mode)),
        OpModel::ResetLineSpacing,
        OpModel::Feed,
    ]
}

/// Appends the operations that print `bitmap` (see [`image_ops`]) to `ops`.
pub fn push_image(ops: &mut Vec<PrintOp>, bitmap: &Bitmap, mode: u8, band_feed: u8)
    ensures
        ops_view(final(ops)@) == ops_view(old(ops)@) + image_ops(bitmap@, mode, band_feed),
{
    let mut unidirectional: Vec<u8> = Vec::new();
    unidirectional.push(0x1B);
    unidirectional.push(0x55);
    unidirectional.push(0x01);
    assert(unidirectional@ =~= seq![0x1Bu8, 0x55u8, 0x01u8]);
    push_op(ops, PrintOp::Raw(unidirectional));
    push_op(ops, PrintOp::Justify(Align::Left));
    push_op(ops, PrintOp::LineSpacing(band_feed));
    push_op(ops, PrintOp::Raw(encode_bit_image(bitmap, mode)));
    push_op(ops, PrintOp::ResetLineSpacing);
    push_op(ops, PrintOp::Feed);
    assert(ops_view(ops@) =~= ops_view(old(ops)@) + image_ops(bitmap@, mode, band_feed));
}

/// The job that prints `bitmap` as one contiguous bit image and cuts the
/// paper afterwards.
pub fn bitmap_job(bitmap: &Bitmap, mode: u8, band_feed: u8) -> (ops: Vec<PrintOp>)
    ensures
        ops_view(ops@) == seq![OpModel::Init] + image_ops(bitmap@, mode, band_feed) + seq![
            OpModel::PrintCut,
        ],
{
    let mut ops: Vec<PrintOp> = Vec::new();
    assert(ops_view(ops@) =~= Seq::<OpModel>::empty());
    push_op(&mut ops, PrintOp::Init);
    push_image(&mut ops, bitmap, mode, band_feed);
    push_op(&mut ops, PrintOp::PrintCut);
    assert(ops_view(ops@) =~= seq![OpModel::Init] + image_ops(bitmap@, mode, band_feed) + seq![
        OpModel::PrintCut,
    ]);
    ops
}

/// The text of a `WriteLine` operation (empty for any other operation).
pub open spec fn line_of(op: OpModel) -> Seq<char> {
    match op {
        OpModel::WriteLine(s) => s,
        _ => Seq::empty(),
    }
}

/// A text job starts the printer, writes lines only, and cuts at the end;
/// the lines it writes, joined by line breaks, give back any text without
/// carriage returns that does not end with a line break, blank lines
/// included.
pub proof fn law_text_job_prints_text(t: Seq<char>)
    ensures
        ({
            let ops = text_ops(t);
            let middle = ops.subrange(1, ops.len() - 1);
            &&& ops.len() >= 2
            &&& ops[0] == OpModel::Init
            &&& ops.last() == OpModel::PrintCut
            &&& forall|k: int| 0 <= k < middle.len() ==> (#[trigger] middle[k]) is WriteLine
            &&& (lacks(t, '\r') && (t.len() == 0 || t.last() != '\n')) ==> join_with(
                middle.map_values(|op: OpModel| line_of(op)),
                '\n',
            ) == t
        }),
{
    let ops = text_ops(t);
    let middle = ops.subrange(1, ops.len() - 1);
    assert(middle =~= write_lines(lines(t)));
    assert(middle.map_values(|op: OpModel| line_of(op)) =~= lines(t));
    if lacks(t, '\r') && (t.len() == 0 || t.last() != '\n') {
        law_lines_rejoin(t);
    }
}

} // verus!
