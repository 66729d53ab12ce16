//! Transaction inputs and inputs-only transactions.

use vstd::prelude::*;
use vstd::bytes::lemma_auto_spec_u32_to_from_le_bytes;
use vstd::bytes::spec_u32_to_le_bytes;
use vstd::bytes::u32_from_le_bytes;
use vstd::bytes::u32_to_le_bytes;
use vstd::slice::slice_subrange;
use crate::compact_size::CompactSize;
use crate::compact_size::lemma_compact_size_trunc;
use crate::compact_size::lemma_compact_size_wire_agree;
use crate::compact_size::lemma_compact_size_wire_len;
use crate::errors::BitcoinError;
use crate::outpoint::OutPoint;
use crate::outpoint::lemma_outpoint_wire_agree;
use crate::script::Script;
use crate::script::lemma_script_trunc;
use crate::script::lemma_script_wire_agree;
use crate::wire::InputView;
use crate::wire::TxView;
use crate::wire::compact_size_parse;
use crate::wire::compact_size_wire;
use crate::wire::input_parse;
use crate::wire::input_view_wf;
use crate::wire::input_wire;
use crate::wire::inputs_parse;
use crate::wire::inputs_wire;
use crate::wire::outpoint_wire;
use crate::wire::script_wire;
use crate::wire::tx_parse;
use crate::wire::tx_view_wf;
use crate::wire::tx_wire;

verus! {

/// One input of a transaction: the out-point it spends, its script, and a
/// 4-byte sequence number, encoded in that order.
#[derive(Debug, PartialEq, Eq, Clone)]
pub struct TransactionInput {
    pub previous_output: OutPoint,
    pub script_sig: Script,
    pub sequence: u32,
}

impl View for TransactionInput {
    type V = InputView;

    open spec fn view(&self) -> InputView {
        InputView {
            previous_output: self.previous_output@,
            script_sig: self.script_sig@,
            sequence: self.sequence,
        }
    }
}

/// The abstract values of a sequence of inputs, in order.
pub open spec fn inputs_view(v: Seq<TransactionInput>) -> Seq<InputView> {
    v.map_values(|x: TransactionInput| x@)
}

impl TransactionInput {
    pub fn new(previous_output: OutPoint, script_sig: Script, sequence: u32) -> (r: Self)
        ensures
            r@ == (InputView {
                previous_output: previous_output@,
                script_sig: script_sig@,
                sequence,
            }),
    {
        TransactionInput { previous_output, script_sig, sequence }
    }

    /// Out-point bytes, script bytes, then the little-endian sequence number.
    pub fn to_bytes(&self) -> (r: Vec<u8>)
        ensures
            r@ == input_wire(self@),
    {
        let mut out: Vec<u8> = self.previous_output.to_bytes();
        let mut script_part: Vec<u8> = self.script_sig.to_bytes();
        out.append(&mut script_part);
        let mut seq_part: Vec<u8> = u32_to_le_bytes(self.sequence);
        out.append(&mut seq_part);
        proof {
            assert(out@ =~= input_wire(self@));
        }
        out
    }

    /// Decode the three fields in order, threading the consumed offset, and
    /// propagating any child failure unchanged.
    pub fn from_bytes(bytes: &[u8]) -> (r: Result<(Self, usize), BitcoinError>)
        ensures
            match r {
                Ok((i, n)) => input_parse(bytes@) == Some((i@, n as int)),
                Err(e) => e == BitcoinError::InsufficientBytes && input_parse(bytes@) is None,
            },
    {
        let (previous_output, a) = match OutPoint::from_bytes(bytes) {
            Err(e) => {
                return Err(e);
            },
            Ok(p) => p,
        };
        let (script_sig, b) = match Script::from_bytes(slice_subrange(bytes, a, bytes.len())) {
            Err(e) => {
                return Err(e);
            },
            Ok(p) => p,
        };
        assert(b <= bytes@.len() - 36);
        let offset: usize = a + b;
        if bytes.len() - offset < 4 {
            return Err(BitcoinError::InsufficientBytes);
        }
        let sequence: u32 = u32_from_le_bytes(slice_subrange(bytes, offset, offset + 4));
        Ok((TransactionInput { previous_output, script_sig, sequence }, offset + 4))
    }
}

/// Parsing is determined by the encoding alone: an encoded input, whatever
/// follows it, parses back to its value and consumes the whole encoding.
pub proof fn lemma_input_wire_agree(i: InputView, extra: Seq<u8>)
    requires
        input_view_wf(i),
    ensures
        input_wire(i).len() == 36 + script_wire(i.script_sig).len() + 4,
        input_parse(input_wire(i) + extra) == Some((i, input_wire(i).len() as int)),
{
    lemma_auto_spec_u32_to_from_le_bytes();
    let opw = outpoint_wire(i.previous_output);
    let sw = script_wire(i.script_sig);
    let qw = spec_u32_to_le_bytes(i.sequence);
    let s = input_wire(i) + extra;
    lemma_outpoint_wire_agree(i.previous_output, sw + (qw + extra));
    assert(s =~= opw + (sw + (qw + extra)));
    lemma_script_wire_agree(i.script_sig, qw + extra);
    assert(s.skip(36) =~= sw + (qw + extra));
    let b = sw.len() as int;
    assert(s.subrange(36 + b, 36 + b + 4) =~= qw);
}

/// Round trip: decoding an encoded input yields the value back and consumes
/// the whole encoding.
pub proof fn lemma_input_round_trip(i: InputView)
    requires
        input_view_wf(i),
    ensures
        input_parse(input_wire(i)) == Some((i, input_wire(i).len() as int)),
{
    lemma_input_wire_agree(i, Seq::<u8>::empty());
    assert(input_wire(i) + Seq::<u8>::empty() =~= input_wire(i));
}

/// Truncation detection: any strict prefix of an encoded input fails to
/// parse, wherever the cut falls.
pub proof fn lemma_input_trunc(i: InputView, k: int)
    requires
        input_view_wf(i),
        0 <= k < input_wire(i).len(),
    ensures
        input_parse(input_wire(i).subrange(0, k)) is None,
{
    lemma_auto_spec_u32_to_from_le_bytes();
    let opw = outpoint_wire(i.previous_output);
    let sw = script_wire(i.script_sig);
    let qw = spec_u32_to_le_bytes(i.sequence);
    lemma_input_wire_agree(i, Seq::<u8>::empty());
    let p = input_wire(i).subrange(0, k);
    if k >= 36 {
        assert(p.skip(36) =~= (sw + qw).subrange(0, k - 36));
        if k - 36 < sw.len() {
            assert(p.skip(36) =~= sw.subrange(0, k - 36));
            lemma_script_trunc(i.script_sig, k - 36);
        } else {
            assert(p.skip(36) =~= sw + qw.subrange(0, k - 36 - sw.len()));
            lemma_script_wire_agree(i.script_sig, qw.subrange(0, k - 36 - sw.len()));
            assert(p.len() < 36 + sw.len() + 4);
        }
    }
}

/// Concatenating one more encoded input on the right.
pub proof fn lemma_inputs_wire_push(ins: Seq<InputView>, i: InputView)
    ensures
        inputs_wire(ins.push(i)) == inputs_wire(ins) + input_wire(i),
    decreases ins.len(),
{
    if ins.len() == 0 {
        assert(ins.push(i)[0] == i);
        assert(ins.push(i).skip(1) =~= Seq::<InputView>::empty());
        assert(inputs_wire(Seq::<InputView>::empty()) == Seq::<u8>::empty());
        assert(inputs_wire(ins) == Seq::<u8>::empty());
        assert(inputs_wire(ins.push(i)) == input_wire(i) + inputs_wire(ins.push(i).skip(1)));
        assert(inputs_wire(ins.push(i)) =~= inputs_wire(ins) + input_wire(i));
    } else {
        assert(ins.push(i).skip(1) =~= ins.skip(1).push(i));
        lemma_inputs_wire_push(ins.skip(1), i);
        assert(ins.push(i)[0] == ins[0]);
        assert(inputs_wire(ins.push(i)) == input_wire(ins[0]) + inputs_wire(ins.push(i).skip(1)));
        assert(inputs_wire(ins) == input_wire(ins[0]) + inputs_wire(ins.skip(1)));
        assert(inputs_wire(ins.push(i)) =~= inputs_wire(ins) + input_wire(i));
    }
}

/// Parsing is determined by the encoding alone, input count included: the
/// concatenation of `n` encoded inputs, whatever follows it, parses back to
/// the `n` values and consumes the whole concatenation.
pub proof fn lemma_inputs_wire_agree(ins: Seq<InputView>, extra: Seq<u8>)
    requires
        forall|j: int| 0 <= j < ins.len() ==> input_view_wf(#[trigger] ins[j]),
    ensures
        inputs_parse(inputs_wire(ins) + extra, ins.len()) == Some(
            (ins, inputs_wire(ins).len() as int),
        ),
    decreases ins.len(),
{
    if ins.len() == 0 {
        assert(inputs_wire(ins) + extra =~= extra);
        assert(ins =~= Seq::<InputView>::empty());
    } else {
        let w0 = input_wire(ins[0]);
        let wr = inputs_wire(ins.skip(1));
        let s = inputs_wire(ins) + extra;
        lemma_input_wire_agree(ins[0], wr + extra);
        assert(s =~= w0 + (wr + extra));
        lemma_inputs_wire_agree(ins.skip(1), extra);
        assert(s.skip(w0.len() as int) =~= wr + extra);
        assert(seq![ins[0]] + ins.skip(1) =~= ins);
    }
}

/// Truncation detection for a run of encoded inputs: a strict prefix of the
/// concatenation never yields all `n` of them.
pub proof fn lemma_inputs_trunc(ins: Seq<InputView>, k: int)
    requires
        forall|j: int| 0 <= j < ins.len() ==> input_view_wf(#[trigger] ins[j]),
        0 <= k < inputs_wire(ins).len(),
    ensures
        inputs_parse(inputs_wire(ins).subrange(0, k), ins.len()) is None,
    decreases ins.len(),
{
    let w0 = input_wire(ins[0]);
    let wr = inputs_wire(ins.skip(1));
    let p = inputs_wire(ins).subrange(0, k);
    lemma_input_wire_agree(ins[0], wr);
    assert(inputs_wire(ins) =~= w0 + wr);
    if k < w0.len() {
        assert(p =~= w0.subrange(0, k));
        lemma_input_trunc(ins[0], k);
    } else {
        assert(p =~= w0 + wr.subrange(0, k - w0.len()));
        lemma_input_wire_agree(ins[0], wr.subrange(0, k - w0.len()));
        assert(p.skip(w0.len() as int) =~= wr.subrange(0, k - w0.len()));
        lemma_inputs_trunc(ins.skip(1), k - w0.len());
    }
}

/// An inputs-only transaction: a version, the inputs in their meaningful
/// order, and a lock time.
#[derive(Debug, PartialEq, Eq, Clone)]
pub struct BitcoinTransaction {
    pub version: u32,
    pub inputs: Vec<TransactionInput>,
    pub lock_time: u32,
}

impl View for BitcoinTransaction {
    type V = TxView;

    open spec fn view(&self) -> TxView {
        TxView {
            version: self.version,
            inputs: inputs_view(self.inputs@),
            lock_time: self.lock_time,
        }
    }
}

impl BitcoinTransaction {
    pub fn new(version: u32, inputs: Vec<TransactionInput>, lock_time: u32) -> (r: Self)
        ensures
            r@ == (TxView { version, inputs: inputs_view(inputs@), lock_time }),
    {
        BitcoinTransaction { version, inputs, lock_time }
    }

    /// Little-endian version, CompactSize input count, each input's bytes in
    /// sequence order, then the little-endian lock time.
    pub fn to_bytes(&self) -> (r: Vec<u8>)
        ensures
            r@ == tx_wire(self@),
    {
        let ghost ivs = inputs_view(self.inputs@);
        let mut out: Vec<u8> = u32_to_le_bytes(self.version);
        let count = CompactSize::new(self.inputs.len() as u64);
        let mut count_part: Vec<u8> = count.to_bytes();
        out.append(&mut count_part);
        proof {
            assert(ivs.take(0) =~= Seq::<InputView>::empty());
            assert(out@ =~= spec_u32_to_le_bytes(self.version) + compact_size_wire(
                self.inputs@.len() as u64,
            ) + inputs_wire(ivs.take(0)));
        }
        let mut idx: usize = 0;
        while idx < self.inputs.len()
            invariant
                idx <= self.inputs.len(),
                ivs == inputs_view(self.inputs@),
                out@ == spec_u32_to_le_bytes(self.version) + compact_size_wire(
                    self.inputs@.len() as u64,
                ) + inputs_wire(ivs.take(idx as int)),
            decreases self.inputs.len() - idx,
        {
            let mut part: Vec<u8> = self.inputs[idx].to_bytes();
            out.append(&mut part);
            idx += 1;
            proof {
                assert(ivs.take(idx as int) =~= ivs.take(idx - 1).push(ivs[idx - 1]));
                lemma_inputs_wire_push(ivs.take(idx - 1), ivs[idx - 1]);
                assert(ivs[idx - 1] == self.inputs@[idx - 1]@);
                assert(out@ =~= spec_u32_to_le_bytes(self.version) + compact_size_wire(
                    self.inputs@.len() as u64,
                ) + inputs_wire(ivs.take(idx as int)));
            }
        }
        let mut lock_part: Vec<u8> = u32_to_le_bytes(self.lock_time);
        out.append(&mut lock_part);
        proof {
            assert(ivs.take(self.inputs@.len() as int) =~= ivs);
            assert(out@ =~= tx_wire(self@));
        }
        out
    }

    /// Decode a transaction: a coarse `>= 8` bytes floor, the version, the
    /// input count, exactly that many inputs threading the offset, then the
    /// lock time; any child failure aborts the whole decode unchanged.
    pub fn from_bytes(bytes: &[u8]) -> (r: Result<(Self, usize), BitcoinError>)
        ensures
            match r {
                Ok((t, n)) => tx_parse(bytes@) == Some((t@, n as int)),
                Err(e) => e == BitcoinError::InsufficientBytes && tx_parse(bytes@) is None,
            },
    {
        if bytes.len() < 8 {
            return Err(BitcoinError::InsufficientBytes);
        }
        let version: u32 = u32_from_le_bytes(slice_subrange(bytes, 0, 4));
        let (count, k) = match CompactSize::from_bytes(slice_subrange(bytes, 4, bytes.len())) {
            Err(e) => {
                return Err(e);
            },
            Ok(p) => p,
        };
        assert(k <= bytes@.len() - 4);
        let mut inputs: Vec<TransactionInput> = Vec::new();
        let mut offset: usize = 4 + k;
        let mut i: u64 = 0;
        proof {
            assert(inputs_view(inputs@) =~= Seq::<InputView>::empty());
        }
        while i < count.value
            invariant
                i <= count.value,
                4 + k <= offset <= bytes@.len(),
                inputs@.len() == i,
                compact_size_parse(bytes@.skip(4)) == Some((count.value, k as int)),
                inputs_parse(bytes@.skip(4 + k as int), count.value as nat) == (match inputs_parse(
                    bytes@.skip(offset as int),
                    (count.value - i) as nat,
                ) {
                    None => None::<(Seq<InputView>, int)>,
                    Some((rest, m)) => Some(
                        (inputs_view(inputs@) + rest, offset - (4 + k as int) + m),
                    ),
                }),
            decreases count.value - i,
        {
            let (inp, n) = match TransactionInput::from_bytes(
                slice_subrange(bytes, offset, bytes.len()),
            ) {
                Err(e) => {
                    proof {
                        assert(input_parse(bytes@.skip(offset as int)) is None);
                        assert(inputs_parse(
                            bytes@.skip(offset as int),
                            (count.value - i) as nat,
                        ) is None);
                    }
                    return Err(e);
                },
                Ok(p) => p,
            };
            proof {
                assert(input_parse(bytes@.skip(offset as int)) == Some((inp@, n as int)));
                assert(n <= bytes@.len() - offset);
                assert(bytes@.skip(offset as int).skip(n as int) =~= bytes@.skip(
                    offset as int + n,
                ));
            }
            let ghost old_inputs = inputs@;
            let ghost prev_offset = offset as int;
            inputs.push(inp);
            offset = offset + n;
            i = i + 1;
            proof {
                assert(inputs@ =~= old_inputs.push(inp));
                assert(inputs_view(inputs@) =~= inputs_view(old_inputs).push(inp@));
                let tail = inputs_parse(bytes@.skip(offset as int), (count.value - i) as nat);
                if tail is Some {
                    let (rest, m) = tail->0;
                    assert(inputs_parse(bytes@.skip(prev_offset), (count.value - (i - 1)) as nat)
                        == Some((seq![inp@] + rest, n + m)));
                    assert(inputs_view(old_inputs) + (seq![inp@] + rest) =~= inputs_view(inputs@)
                        + rest);
                } else {
                    assert(inputs_parse(
                        bytes@.skip(prev_offset),
                        (count.value - (i - 1)) as nat,
                    ) is None);
                }
            }
        }
        proof {
            let tail = inputs_parse(bytes@.skip(offset as int), 0);
            assert(tail == Some((Seq::<InputView>::empty(), 0int)));
            assert(inputs_view(inputs@) + Seq::<InputView>::empty() =~= inputs_view(inputs@));
        }
        if bytes.len() - offset < 4 {
            return Err(BitcoinError::InsufficientBytes);
        }
        let lock_time: u32 = u32_from_le_bytes(slice_subrange(bytes, offset, offset + 4));
        Ok((BitcoinTransaction { version, inputs, lock_time }, offset + 4))
    }
}

/// Parsing is determined by the encoding alone: an encoded transaction,
/// whatever follows it, parses back to its value and consumes the whole
/// encoding.
pub proof fn lemma_tx_wire_agree(t: TxView, extra: Seq<u8>)
    requires
        tx_view_wf(t),
    ensures
        tx_wire(t).len() == 4 + compact_size_wire(t.inputs.len() as u64).len() + inputs_wire(
            t.inputs,
        ).len() + 4,
        tx_parse(tx_wire(t) + extra) == Some((t, tx_wire(t).len() as int)),
{
    lemma_auto_spec_u32_to_from_le_bytes();
    let vw = spec_u32_to_le_bytes(t.version);
    let cv = t.inputs.len() as u64;
    let cw = compact_size_wire(cv);
    let iw = inputs_wire(t.inputs);
    let lw = spec_u32_to_le_bytes(t.lock_time);
    lemma_compact_size_wire_len(cv);
    let s = tx_wire(t) + extra;
    assert(s.len() >= 8);
    assert(s.subrange(0, 4) =~= vw);
    assert(s.skip(4) =~= cw + (iw + (lw + extra)));
    lemma_compact_size_wire_agree(cv, iw + (lw + extra));
    assert(s.skip(4 + cw.len() as int) =~= iw + (lw + extra));
    lemma_inputs_wire_agree(t.inputs, lw + extra);
    assert(cv as nat == t.inputs.len());
    let off = 4 + cw.len() as int + iw.len() as int;
    assert(s.subrange(off, off + 4) =~= lw);
}

/// Round trip: decoding an encoded transaction yields the value back,
/// consuming the whole encoding.
pub proof fn lemma_tx_round_trip(t: TxView)
    requires
        tx_view_wf(t),
    ensures
        tx_parse(tx_wire(t)) == Some((t, tx_wire(t).len() as int)),
{
    lemma_tx_wire_agree(t, Seq::<u8>::empty());
    assert(tx_wire(t) + Seq::<u8>::empty() =~= tx_wire(t));
}

/// Offset accounting: with trailing extra bytes the consumed count is
/// strictly below the buffer length, and parsing only the consumed prefix
/// yields the identical result.
pub proof fn lemma_tx_offset_accounting(t: TxView, extra: Seq<u8>)
    requires
        tx_view_wf(t),
        extra.len() > 0,
    ensures
        tx_parse(tx_wire(t) + extra) == Some((t, tx_wire(t).len() as int)),
        tx_wire(t).len() < (tx_wire(t) + extra).len(),
        tx_parse((tx_wire(t) + extra).subrange(0, tx_wire(t).len() as int)) == Some(
            (t, tx_wire(t).len() as int),
        ),
{
    lemma_tx_wire_agree(t, extra);
    lemma_tx_round_trip(t);
    assert((tx_wire(t) + extra).subrange(0, tx_wire(t).len() as int) =~= tx_wire(t));
}

/// Truncation detection: any strict prefix of an encoded transaction fails
/// to parse, wherever the cut falls.
pub proof fn lemma_tx_trunc(t: TxView, k: int)
    requires
        tx_view_wf(t),
        0 <= k < tx_wire(t).len(),
    ensures
        tx_parse(tx_wire(t).subrange(0, k)) is None,
{
    lemma_auto_spec_u32_to_from_le_bytes();
    let cv = t.inputs.len() as u64;
    let cw = compact_size_wire(cv);
    let iw = inputs_wire(t.inputs);
    let lw = spec_u32_to_le_bytes(t.lock_time);
    lemma_compact_size_wire_len(cv);
    lemma_tx_wire_agree(t, Seq::<u8>::empty());
    let p = tx_wire(t).subrange(0, k);
    if k >= 8 {
        if k < 4 + cw.len() {
            assert(p.skip(4) =~= cw.subrange(0, k - 4));
            lemma_compact_size_trunc(cv, k - 4);
        } else if k < 4 + cw.len() + iw.len() {
            assert(p.skip(4) =~= cw + iw.subrange(0, k - 4 - cw.len()));
            lemma_compact_size_wire_agree(cv, iw.subrange(0, k - 4 - cw.len()));
            assert(p.skip(4 + cw.len() as int) =~= iw.subrange(0, k - 4 - cw.len()));
            lemma_inputs_trunc(t.inputs, k - 4 - cw.len());
        } else {
            let off = 4 + cw.len() as int + iw.len() as int;
            assert(p.skip(4) =~= cw + (iw + lw.subrange(0, k - off)));
            lemma_compact_size_wire_agree(cv, iw + lw.subrange(0, k - off));
            assert(p.skip(4 + cw.len() as int) =~= iw + lw.subrange(0, k - off));
            lemma_inputs_wire_agree(t.inputs, lw.subrange(0, k - off));
            assert(p.len() < off + 4);
        }
    }
}

} // verus!
