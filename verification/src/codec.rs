//! Run-length codec over byte sequences.
//!
//! The wire format is a sequence of 5-byte records: a run count as a 4-byte
//! little-endian signed integer, followed by the repeated value byte. A
//! well-formed stream is an exact multiple of 5 bytes and every count is
//! positive; the encoder refuses runs longer than the largest count the
//! record can carry.

use vstd::prelude::*;

verus! {

use vstd::arithmetic::div_mod::{
    lemma_fundamental_div_mod,
    lemma_div_denominator,
    lemma_div_is_ordered,
    lemma_small_mod,
};

/// The error a codec operation reports.
#[derive(Clone, Copy, PartialEq, Eq, Structural, Debug)]
pub enum CodecError {
    /// The compressed input has a trailing fragment or a non-positive count.
    MalformedRecord,
    /// A run is longer than the record's signed 32-bit count can hold.
    CountOverflow,
}

/// The maximal runs of `s`, in order. Each entry pairs the run's length with
/// its byte; lengths are at least 1 and consecutive entries differ in byte.
pub open spec fn runs_spec(s: Seq<u8>) -> Seq<(int, u8)>
    decreases s.len(),
{
    if s.len() == 0 {
        Seq::empty()
    } else {
        let prev = runs_spec(s.drop_last());
        let b = s.last();
        if prev.len() > 0 && prev.last().1 == b {
            prev.update(prev.len() - 1, (prev.last().0 + 1, b))
        } else {
            prev.push((1int, b))
        }
    }
}

/// How many maximal runs `s` has.
pub open spec fn run_count(s: Seq<u8>) -> nat {
    runs_spec(s).len()
}

/// The 5-byte record for one run: the count in little-endian order, then the
/// value byte.
pub open spec fn record_of(count: int, value: u8) -> Seq<u8> {
    seq![
        (count % 256) as u8,
        ((count / 256) % 256) as u8,
        ((count / 65536) % 256) as u8,
        ((count / 16777216) % 256) as u8,
        value,
    ]
}

/// The signed 32-bit integer that four little-endian bytes encode.
pub open spec fn le_count(b0: u8, b1: u8, b2: u8, b3: u8) -> int {
    let unsigned = b0 + 256 * b1 + 65536 * b2 + 16777216 * b3;
    if unsigned >= 0x8000_0000 {
        unsigned - 0x1_0000_0000
    } else {
        unsigned as int
    }
}

/// Every run of `s` fits the record's signed 32-bit count.
pub open spec fn encodable(s: Seq<u8>) -> bool {
    forall|i: int| 0 <= i < runs_spec(s).len() ==> (#[trigger] runs_spec(s)[i]).0 <= 0x7FFF_FFFF
}

/// The records of the given runs, concatenated in order.
pub open spec fn records_of(rs: Seq<(int, u8)>) -> Seq<u8>
    decreases rs.len(),
{
    if rs.len() == 0 {
        Seq::empty()
    } else {
        record_of(rs.first().0, rs.first().1) + records_of(rs.drop_first())
    }
}

/// What the encoder produces for `s`.
pub open spec fn encode_spec(s: Seq<u8>) -> Seq<u8> {
    records_of(runs_spec(s))
}

/// `value` repeated `count` times (empty when `count <= 0`).
pub open spec fn repeat_byte(value: u8, count: int) -> Seq<u8>
    decreases count,
{
    if count <= 0 {
        Seq::empty()
    } else {
        repeat_byte(value, count - 1).push(value)
    }
}

/// The expansion of the given runs: each byte repeated its count, in order.
pub open spec fn expand(rs: Seq<(int, u8)>) -> Seq<u8>
    decreases rs.len(),
{
    if rs.len() == 0 {
        Seq::empty()
    } else {
        repeat_byte(rs.first().1, rs.first().0) + expand(rs.drop_first())
    }
}

/// What the decoder produces for a stream of records (ignoring a trailing
/// fragment shorter than one record).
pub open spec fn decode_spec(s: Seq<u8>) -> Seq<u8>
    decreases s.len(),
{
    if s.len() < 5 {
        Seq::empty()
    } else {
        repeat_byte(s[4], le_count(s[0], s[1], s[2], s[3])) + decode_spec(s.skip(5))
    }
}

/// A well-formed compressed stream: whole 5-byte records, all counts positive.
pub open spec fn well_formed(s: Seq<u8>) -> bool
    decreases s.len(),
{
    if s.len() == 0 {
        true
    } else if s.len() < 5 {
        false
    } else {
        le_count(s[0], s[1], s[2], s[3]) >= 1 && well_formed(s.skip(5))
    }
}

/// Appending a run at the back appends its record at the back.
pub proof fn lemma_records_push(rs: Seq<(int, u8)>, r: (int, u8))
    ensures
        records_of(rs.push(r)) == records_of(rs) + record_of(r.0, r.1),
    decreases rs.len(),
{
    if rs.len() == 0 {
        assert(rs =~= Seq::<(int, u8)>::empty());
        assert(rs.push(r).drop_first() =~= rs);
        assert(rs.push(r).first() == r);
        assert(record_of(r.0, r.1) + Seq::<u8>::empty() =~= record_of(r.0, r.1));
        assert(records_of(rs) + record_of(r.0, r.1) =~= record_of(r.0, r.1));
    } else {
        lemma_records_push(rs.drop_first(), r);
        assert(rs.push(r).drop_first() =~= rs.drop_first().push(r));
        assert(rs.push(r).first() == rs.first());
        assert(record_of(rs.first().0, rs.first().1) + (records_of(rs.drop_first()) + record_of(
            r.0,
            r.1,
        )) =~= (record_of(rs.first().0, rs.first().1) + records_of(rs.drop_first())) + record_of(
            r.0,
            r.1,
        ));
    }
}

/// A prefix of an encodable sequence is encodable.
pub proof fn lemma_encodable_take(s: Seq<u8>, i: int)
    requires
        0 <= i <= s.len(),
        encodable(s),
    ensures
        encodable(s.take(i)),
    decreases s.len(),
{
    if i == s.len() {
        assert(s.take(i) =~= s);
    } else {
        lemma_encodable_drop_last(s);
        assert(s.drop_last().take(i) =~= s.take(i));
        lemma_encodable_take(s.drop_last(), i);
    }
}

proof fn lemma_encodable_drop_last(s: Seq<u8>)
    requires
        s.len() > 0,
        encodable(s),
    ensures
        encodable(s.drop_last()),
{
    let prev = runs_spec(s.drop_last());
    let rs = runs_spec(s);
    let b = s.last();
    if prev.len() > 0 && prev.last().1 == b {
        assert forall|i: int| 0 <= i < prev.len() implies (#[trigger] prev[i]).0 <= 0x7FFF_FFFF by {
            if i < prev.len() - 1 {
                assert(rs[i] == prev[i]);
            } else {
                assert(rs[i].0 == prev[i].0 + 1);
            }
        }
    } else {
        assert forall|i: int| 0 <= i < prev.len() implies (#[trigger] prev[i]).0 <= 0x7FFF_FFFF by {
            assert(rs[i] == prev[i]);
        }
    }
}

/// Appends the 5-byte record of one run to `out`.
fn push_record(out: &mut Vec<u8>, count: u32, value: u8)
    ensures
        final(out)@ == old(out)@ + record_of(count as int, value),
{
    out.push((count % 256) as u8);
    out.push(((count / 256) % 256) as u8);
    out.push(((count / 65536) % 256) as u8);
    out.push(((count / 16777216) % 256) as u8);
    out.push(value);
    assert(out@ =~= old(out)@ + record_of(count as int, value));
}

/// The records a streaming encoder has emitted after consuming `s`: one for
/// each finished run, none yet for the run still in progress.
pub open spec fn emitted_of(s: Seq<u8>) -> Seq<u8> {
    if s.len() == 0 {
        Seq::empty()
    } else {
        records_of(runs_spec(s).drop_last())
    }
}

/// A single-pass encoder: feed it bytes one at a time and write out the
/// record bytes it hands back; `finish` closes the last run. It holds only
/// the run in progress, never the stream.
pub struct RunLengthEncoder {
    current: Option<(u8, u32)>,
    seen: Ghost<Seq<u8>>,
}

impl RunLengthEncoder {
    /// The bytes this encoder has consumed so far.
    pub closed spec fn seen(&self) -> Seq<u8> {
        self.seen@
    }

    /// The encoder's run accumulator matches the last run of what it has
    /// consumed, and everything consumed is encodable.
    pub closed spec fn wf(&self) -> bool {
        &&& encodable(self.seen@)
        &&& match self.current {
            Some((value, count)) => {
                &&& self.seen@.len() > 0
                &&& 1 <= count <= 0x7FFF_FFFFu32
                &&& runs_spec(self.seen@).last() == (count as int, value)
            },
            None => self.seen@.len() == 0,
        }
    }

    /// A fresh encoder that has consumed nothing.
    pub fn new() -> (r: RunLengthEncoder)
        ensures
            r.wf(),
            r.seen() == Seq::<u8>::empty(),
    {
        RunLengthEncoder { current: None, seen: Ghost(Seq::empty()) }
    }

    /// Consumes one byte. Returns the record bytes to write out: the record
    /// of the run this byte finished, or nothing while a run grows. Fails
    /// with `CountOverflow` exactly when the byte would stretch its run past
    /// the largest count a record can hold; the encoder is unchanged then.
    pub fn push_byte(&mut self, b: u8) -> (r: Result<Vec<u8>, CodecError>)
        requires
            old(self).wf(),
        ensures
            match r {
                Ok(out) => {
                    &&& final(self).wf()
                    &&& final(self).seen() == old(self).seen().push(b)
                    &&& emitted_of(old(self).seen()) + out@ == emitted_of(final(self).seen())
                },
                Err(e) => {
                    &&& e == CodecError::CountOverflow
                    &&& !encodable(old(self).seen().push(b))
                    &&& *final(self) == *old(self)
                },
            },
    {
        let ghost s = self.seen@;
        let ghost s2 = self.seen@.push(b);
        proof {
            assert(s2.drop_last() =~= s);
            assert(s2.last() == b);
        }
        match self.current {
            None => {
                proof {
                    assert(s =~= Seq::<u8>::empty());
                    assert(runs_spec(s) == Seq::<(int, u8)>::empty());
                    assert(runs_spec(s2) =~= seq![(1int, b)]);
                    assert(runs_spec(s2).drop_last() =~= Seq::<(int, u8)>::empty());
                }
                self.current = Some((b, 1));
                self.seen = Ghost(s2);
                let out: Vec<u8> = Vec::new();
                proof {
                    assert(emitted_of(s) + out@ =~= emitted_of(s2));
                }
                Ok(out)
            },
            Some((value, count)) => {
                let ghost rs = runs_spec(s);
                let ghost rs2 = runs_spec(s2);
                if b == value {
                    proof {
                        assert(rs2 == rs.update(rs.len() - 1, (count + 1, b)));
                        assert(rs2.last().0 == count + 1);
                    }
                    if count == 0x7FFF_FFFF {
                        proof {
                            assert(rs2[rs2.len() - 1].0 > 0x7FFF_FFFF);
                            assert(!encodable(s2));
                        }
                        return Err(CodecError::CountOverflow);
                    }
                    self.current = Some((value, count + 1));
                    self.seen = Ghost(s2);
                    let out: Vec<u8> = Vec::new();
                    proof {
                        assert forall|j: int| 0 <= j < rs2.len() implies (#[trigger] rs2[j]).0
                            <= 0x7FFF_FFFF by {
                            if j < rs2.len() - 1 {
                                assert(rs2[j] == rs[j]);
                            }
                        }
                        assert(rs2.drop_last() =~= rs.drop_last());
                        assert(emitted_of(s) + out@ =~= emitted_of(s2));
                    }
                    Ok(out)
                } else {
                    let mut out: Vec<u8> = Vec::new();
                    push_record(&mut out, count, value);
                    self.current = Some((b, 1));
                    self.seen = Ghost(s2);
                    proof {
                        assert(rs2 == rs.push((1int, b)));
                        assert(rs2.drop_last() =~= rs);
                        assert forall|j: int| 0 <= j < rs2.len() implies (#[trigger] rs2[j]).0
                            <= 0x7FFF_FFFF by {
                            if j < rs2.len() - 1 {
                                assert(rs2[j] == rs[j]);
                            }
                        }
                        lemma_records_push(rs.drop_last(), (count as int, value));
                        assert(rs.drop_last().push((count as int, value)) =~= rs);
                        assert(Seq::<u8>::empty() + record_of(count as int, value) =~= record_of(
                            count as int,
                            value,
                        ));
                        assert(emitted_of(s) + out@ =~= emitted_of(s2));
                    }
                    Ok(out)
                }
            },
        }
    }

    /// Closes the run in progress and returns its record; nothing when the
    /// encoder consumed no bytes. Everything handed out over the encoder's
    /// life is exactly the encoding of what it consumed.
    pub fn finish(&self) -> (r: Vec<u8>)
        requires
            self.wf(),
        ensures
            emitted_of(self.seen()) + r@ == encode_spec(self.seen()),
    {
        match self.current {
            None => {
                let out: Vec<u8> = Vec::new();
                proof {
                    assert(self.seen@ =~= Seq::<u8>::empty());
                    assert(runs_spec(self.seen@) == Seq::<(int, u8)>::empty());
                    assert(emitted_of(self.seen@) + out@ =~= encode_spec(self.seen@));
                }
                out
            },
            Some((value, count)) => {
                let mut out: Vec<u8> = Vec::new();
                push_record(&mut out, count, value);
                proof {
                    let rs = runs_spec(self.seen@);
                    lemma_records_push(rs.drop_last(), (count as int, value));
                    assert(rs.drop_last().push((count as int, value)) =~= rs);
                    assert(Seq::<u8>::empty() + record_of(count as int, value) =~= record_of(
                        count as int,
                        value,
                    ));
                    assert(emitted_of(self.seen@) + out@ =~= encode_spec(self.seen@));
                }
                out
            },
        }
    }
}

/// A well-formed stream is an exact multiple of 5 bytes.
pub proof fn lemma_well_formed_len(s: Seq<u8>)
    requires
        well_formed(s),
    ensures
        s.len() % 5 == 0,
    decreases s.len(),
{
    if s.len() >= 5 {
        lemma_well_formed_len(s.skip(5));
    }
}

/// Splitting a stream between records splits its well-formedness.
pub proof fn lemma_wf_append(s: Seq<u8>, t: Seq<u8>)
    requires
        s.len() % 5 == 0,
        well_formed(s),
    ensures
        well_formed(s + t) == well_formed(t),
    decreases s.len(),
{
    if s.len() == 0 {
        assert(s + t =~= t);
    } else {
        let u = s + t;
        assert(u[0] == s[0] && u[1] == s[1] && u[2] == s[2] && u[3] == s[3]);
        assert(u.skip(5) =~= s.skip(5) + t);
        lemma_wf_append(s.skip(5), t);
        if t.len() == 0 {
            assert(s + t =~= s);
        }
    }
}

/// Splitting a stream between records splits its decoding.
pub proof fn lemma_decode_append(s: Seq<u8>, t: Seq<u8>)
    requires
        s.len() % 5 == 0,
    ensures
        decode_spec(s + t) == decode_spec(s) + decode_spec(t),
    decreases s.len(),
{
    if s.len() == 0 {
        assert(s + t =~= t);
        assert(decode_spec(s) + decode_spec(t) =~= decode_spec(t));
    } else {
        let u = s + t;
        assert(u[0] == s[0] && u[1] == s[1] && u[2] == s[2] && u[3] == s[3] && u[4] == s[4]);
        assert(u.skip(5) =~= s.skip(5) + t);
        lemma_decode_append(s.skip(5), t);
        let head = repeat_byte(s[4], le_count(s[0], s[1], s[2], s[3]));
        assert(head + (decode_spec(s.skip(5)) + decode_spec(t)) =~= (head + decode_spec(s.skip(5)))
            + decode_spec(t));
    }
}

/// The length of the whole records at the front of `s`.
pub open spec fn complete_len(s: Seq<u8>) -> int {
    s.len() - (s.len() as int) % 5
}

/// What a streaming decoder has produced after consuming `s`: the expansion
/// of every whole record, nothing yet for a trailing fragment.
pub open spec fn decoded_of(s: Seq<u8>) -> Seq<u8> {
    decode_spec(s.take(complete_len(s)))
}

/// A single-pass decoder: feed it bytes one at a time and write out the
/// expanded bytes it hands back; `finish` tells whether the stream ended on
/// a record boundary. It holds only the record being gathered, never the
/// stream.
pub struct RunLengthDecoder {
    pending: Vec<u8>,
    fed: Ghost<Seq<u8>>,
}

impl RunLengthDecoder {
    /// The bytes this decoder has consumed so far.
    pub closed spec fn fed(&self) -> Seq<u8> {
        self.fed@
    }

    /// The decoder holds exactly the trailing fragment of what it has
    /// consumed, and the whole records before it are well formed.
    pub closed spec fn wf(&self) -> bool {
        &&& self.pending@.len() == (self.fed@.len() as int) % 5
        &&& self.pending@ == self.fed@.skip(complete_len(self.fed@))
        &&& well_formed(self.fed@.take(complete_len(self.fed@)))
    }

    /// A fresh decoder that has consumed nothing.
    pub fn new() -> (r: RunLengthDecoder)
        ensures
            r.wf(),
            r.fed() == Seq::<u8>::empty(),
    {
        let r = RunLengthDecoder { pending: Vec::new(), fed: Ghost(Seq::empty()) };
        proof {
            assert(r.fed@.skip(0) =~= r.pending@);
            assert(r.fed@.take(0) =~= Seq::<u8>::empty());
        }
        r
    }

    /// Consumes one byte. Returns the bytes to write out: the expansion of
    /// the record this byte completed, or nothing while a record gathers.
    /// Fails with `MalformedRecord` exactly when the byte completes a record
    /// whose count is not positive; the decoder is unchanged then.
    pub fn feed(&mut self, b: u8) -> (r: Result<Vec<u8>, CodecError>)
        requires
            old(self).wf(),
        ensures
            match r {
                Ok(out) => {
                    &&& final(self).wf()
                    &&& final(self).fed() == old(self).fed().push(b)
                    &&& decoded_of(old(self).fed()) + out@ == decoded_of(final(self).fed())
                },
                Err(e) => {
                    &&& e == CodecError::MalformedRecord
                    &&& (old(self).fed().len() + 1) % 5 == 0
                    &&& !well_formed(old(self).fed().push(b))
                    &&& *final(self) == *old(self)
                },
            },
    {
        let ghost s = self.fed@;
        let ghost s2 = s.push(b);
        let ghost n = s.len() as int;
        let ghost prefix = s.take(complete_len(s));
        if self.pending.len() == 4 {
            let b0 = self.pending[0];
            let b1 = self.pending[1];
            let b2 = self.pending[2];
            let b3 = self.pending[3];
            let ghost record = s2.skip(n - 4);
            proof {
                assert(record.len() == 5);
                assert(self.pending@[0] == s[n - 4] && self.pending@[1] == s[n - 3]
                    && self.pending@[2] == s[n - 2] && self.pending@[3] == s[n - 1]);
                assert(record[0] == b0 && record[1] == b1 && record[2] == b2 && record[3] == b3
                    && record[4] == b);
                assert(prefix + record =~= s2);
                assert(s2.take(complete_len(s2)) =~= s2);
            }
            let unsigned: u32 = (b0 as u32) + (b1 as u32) * 256 + (b2 as u32) * 65536 + (b3 as u32)
                * 16777216;
            proof {
                if unsigned >= 1 && unsigned < 0x8000_0000 {
                    assert(le_count(record[0], record[1], record[2], record[3]) == unsigned as int);
                } else {
                    assert(le_count(record[0], record[1], record[2], record[3]) < 1);
                }
                assert(record.skip(5) =~= Seq::<u8>::empty());
                lemma_wf_append(prefix, record);
            }
            if unsigned == 0 || unsigned >= 0x8000_0000 {
                proof {
                    assert(!well_formed(record));
                    assert(!well_formed(s2));
                }
                return Err(CodecError::MalformedRecord);
            }
            let mut out: Vec<u8> = Vec::new();
            let mut j: u32 = 0;
            while j < unsigned
                invariant
                    0 <= j <= unsigned,
                    out@ == repeat_byte(b, j as int),
                decreases unsigned - j,
            {
                out.push(b);
                j = j + 1;
            }
            self.pending = Vec::new();
            self.fed = Ghost(s2);
            proof {
                assert(s2.skip(complete_len(s2)) =~= self.pending@);
                lemma_decode_append(prefix, record);
                assert(decode_spec(record) == repeat_byte(b, unsigned as int) + decode_spec(
                    Seq::<u8>::empty(),
                ));
                assert(decode_spec(record) =~= out@);
                assert(well_formed(Seq::<u8>::empty()));
                assert(well_formed(record));
            }
            Ok(out)
        } else {
            proof {
                assert(s2.take(complete_len(s2)) =~= prefix);
                assert(s2.skip(complete_len(s2)) =~= self.pending@.push(b));
            }
            self.pending.push(b);
            self.fed = Ghost(s2);
            let out: Vec<u8> = Vec::new();
            proof {
                assert(decoded_of(s) + out@ =~= decoded_of(s2));
            }
            Ok(out)
        }
    }

    /// Whether the consumed stream ended on a record boundary: `Ok` exactly
    /// when every byte fed belonged to a whole, well-formed record, and
    /// `MalformedRecord` exactly when a trailing fragment is left over.
    pub fn finish(&self) -> (r: Result<(), CodecError>)
        requires
            self.wf(),
        ensures
            match r {
                Ok(()) => well_formed(self.fed()) && decoded_of(self.fed()) == decode_spec(
                    self.fed(),
                ),
                Err(e) => e == CodecError::MalformedRecord && !well_formed(self.fed()),
            },
    {
        if self.pending.len() == 0 {
            proof {
                assert(self.fed@.take(complete_len(self.fed@)) =~= self.fed@);
            }
            Ok(())
        } else {
            proof {
                if well_formed(self.fed@) {
                    lemma_well_formed_len(self.fed@);
                }
            }
            Err(CodecError::MalformedRecord)
        }
    }
}

/// Expands a stream of 5-byte run records back into the bytes they encode.
/// Fails with `MalformedRecord` exactly when the stream is not whole 5-byte
/// records with positive counts; nothing is returned for a malformed stream.
pub fn decode(input: &Vec<u8>) -> (r: Result<Vec<u8>, CodecError>)
    ensures
        match r {
            Ok(out) => well_formed(input@) && out@ == decode_spec(input@),
            Err(e) => !well_formed(input@) && e == CodecError::MalformedRecord,
        },
{
    if input.len() % 5 != 0 {
        proof {
            if well_formed(input@) {
                lemma_well_formed_len(input@);
            }
        }
        return Err(CodecError::MalformedRecord);
    }
    let mut out: Vec<u8> = Vec::new();
    let mut i: usize = 0;
    proof {
        assert(input@.skip(0) =~= input@);
        assert(Seq::<u8>::empty() + decode_spec(input@) =~= decode_spec(input@));
    }
    while i < input.len()
        invariant
            0 <= i <= input@.len(),
            i <= input.len(),
            i % 5 == 0,
            input@.len() % 5 == 0,
            well_formed(input@) == well_formed(input@.skip(i as int)),
            decode_spec(input@) == out@ + decode_spec(input@.skip(i as int)),
        decreases input@.len() - i,
    {
        let ghost rest = input@.skip(i as int);
        proof {
            assert(rest.len() == input@.len() - i);
            assert(rest.len() % 5 == 0 && rest.len() > 0);
            assert(rest.len() >= 5);
        }
        let b0 = input[i];
        let b1 = input[i + 1];
        let b2 = input[i + 2];
        let b3 = input[i + 3];
        let value = input[i + 4];
        proof {
            assert(rest[0] == b0 && rest[1] == b1 && rest[2] == b2 && rest[3] == b3 && rest[4]
                == value);
        }
        let unsigned: u32 = (b0 as u32) + (b1 as u32) * 256 + (b2 as u32) * 65536 + (b3 as u32)
            * 16777216;
        if unsigned == 0 || unsigned >= 0x8000_0000 {
            proof {
                assert(le_count(rest[0], rest[1], rest[2], rest[3]) < 1);
                assert(!well_formed(rest));
            }
            return Err(CodecError::MalformedRecord);
        }
        proof {
            assert(le_count(rest[0], rest[1], rest[2], rest[3]) == unsigned as int);
        }
        let ghost before = out@;
        let mut j: u32 = 0;
        while j < unsigned
            invariant
                0 <= j <= unsigned,
                out@ == before + repeat_byte(value, j as int),
            decreases unsigned - j,
        {
            out.push(value);
            j = j + 1;
        }
        proof {
            assert(out@ == before + repeat_byte(rest[4], le_count(
                rest[0],
                rest[1],
                rest[2],
                rest[3],
            )));
            assert(rest.skip(5) =~= input@.skip(i + 5));
            assert(decode_spec(rest) == repeat_byte(rest[4], le_count(
                rest[0],
                rest[1],
                rest[2],
                rest[3],
            )) + decode_spec(input@.skip(i + 5)));
            assert(decode_spec(input@) == (before + repeat_byte(rest[4], le_count(
                rest[0],
                rest[1],
                rest[2],
                rest[3],
            ))) + decode_spec(input@.skip(i + 5))) by {
                assert(before + (repeat_byte(rest[4], le_count(rest[0], rest[1], rest[2], rest[3]))
                    + decode_spec(input@.skip(i + 5))) =~= (before + repeat_byte(rest[4], le_count(
                    rest[0],
                    rest[1],
                    rest[2],
                    rest[3],
                ))) + decode_spec(input@.skip(i + 5)));
            }
        }
        i = i + 5;
    }
    proof {
        assert(input@.skip(input@.len() as int) =~= Seq::<u8>::empty());
        assert(well_formed(Seq::<u8>::empty()));
        assert(decode_spec(Seq::<u8>::empty()) == Seq::<u8>::empty());
        assert(out@ + Seq::<u8>::empty() =~= out@);
    }
    Ok(out)
}

/// Compresses `input` into a stream of 5-byte run records. Fails with
/// `CountOverflow` exactly when some run of `input` is longer than the
/// record's signed 32-bit count can hold.
#[verifier::rlimit(50)]
pub fn encode(input: &Vec<u8>) -> (r: Result<Vec<u8>, CodecError>)
    ensures
        match r {
            Ok(out) => encodable(input@) && out@ == encode_spec(input@),
            Err(e) => !encodable(input@) && e == CodecError::CountOverflow,
        },
{
    let mut out: Vec<u8> = Vec::new();
    if input.len() == 0 {
        return Ok(out);
    }
    let mut cur_val: u8 = input[0];
    let mut cur_count: u32 = 1;
    let mut i: usize = 1;
    proof {
        let t1 = input@.take(1);
        assert(t1.drop_last() =~= Seq::<u8>::empty());
        assert(runs_spec(Seq::<u8>::empty()) == Seq::<(int, u8)>::empty());
        assert(t1.last() == input@[0]);
        assert(runs_spec(t1) =~= seq![(1int, input@[0])]);
        assert(runs_spec(t1).drop_last() =~= Seq::<(int, u8)>::empty());
    }
    while i < input.len()
        invariant
            1 <= i <= input@.len(),
            i <= input.len(),
            runs_spec(input@.take(i as int)).len() > 0,
            runs_spec(input@.take(i as int)).last() == (cur_count as int, cur_val),
            1 <= cur_count <= 0x7FFF_FFFFu32,
            encodable(input@.take(i as int)),
            out@ == records_of(runs_spec(input@.take(i as int)).drop_last()),
        decreases input@.len() - i,
    {
        let b = input[i];
        let ghost rs = runs_spec(input@.take(i as int));
        let ghost rs1 = runs_spec(input@.take(i + 1));
        proof {
            assert(input@.take(i + 1).drop_last() =~= input@.take(i as int));
            assert(input@.take(i + 1).last() == input@[i as int]);
        }
        if b == cur_val {
            proof {
                assert(rs1 == rs.update(rs.len() - 1, (cur_count + 1, b)));
                assert(rs1.last().0 == cur_count + 1);
            }
            if cur_count == 0x7FFF_FFFF {
                proof {
                    assert(rs1[rs1.len() - 1].0 > 0x7FFF_FFFF);
                    assert(!encodable(input@.take(i + 1)));
                    if encodable(input@) {
                        lemma_encodable_take(input@, i + 1);
                        assert(false);
                    }
                }
                return Err(CodecError::CountOverflow);
            }
            cur_count = cur_count + 1;
            proof {
                assert(rs1.drop_last() =~= rs.drop_last());
                assert forall|j: int| 0 <= j < rs1.len() implies (#[trigger] rs1[j]).0
                    <= 0x7FFF_FFFF by {
                    if j < rs1.len() - 1 {
                        assert(rs1[j] == rs[j]);
                    }
                }
            }
        } else {
            push_record(&mut out, cur_count, cur_val);
            proof {
                lemma_records_push(rs.drop_last(), (cur_count as int, cur_val));
                assert(rs.drop_last().push((cur_count as int, cur_val)) =~= rs);
                assert(rs1 == rs.push((1int, b)));
                assert(rs1.drop_last() =~= rs);
                assert forall|j: int| 0 <= j < rs1.len() implies (#[trigger] rs1[j]).0
                    <= 0x7FFF_FFFF by {
                    if j < rs1.len() - 1 {
                        assert(rs1[j] == rs[j]);
                    }
                }
            }
            cur_val = b;
            cur_count = 1;
        }
        i = i + 1;
    }
    push_record(&mut out, cur_count, cur_val);
    proof {
        assert(input@.take(input@.len() as int) =~= input@);
        let rs = runs_spec(input@);
        lemma_records_push(rs.drop_last(), (cur_count as int, cur_val));
        assert(rs.drop_last().push((cur_count as int, cur_val)) =~= rs);
    }
    Ok(out)
}

/// Every run of any sequence has a positive count.
pub proof fn lemma_runs_positive(s: Seq<u8>)
    ensures
        forall|i: int| 0 <= i < runs_spec(s).len() ==> (#[trigger] runs_spec(s)[i]).0 >= 1,
    decreases s.len(),
{
    if s.len() > 0 {
        lemma_runs_positive(s.drop_last());
        let prev = runs_spec(s.drop_last());
        let rs = runs_spec(s);
        let b = s.last();
        assert forall|i: int| 0 <= i < rs.len() implies (#[trigger] rs[i]).0 >= 1 by {
            if prev.len() > 0 && prev.last().1 == b {
                if i < rs.len() - 1 {
                    assert(rs[i] == prev[i]);
                } else {
                    assert(rs[i].0 == prev[i].0 + 1);
                }
            } else {
                if i < rs.len() - 1 {
                    assert(rs[i] == prev[i]);
                } else {
                    assert(rs[i].0 == 1);
                }
            }
        }
    }
}

/// Appending a run at the back appends its expansion at the back.
pub proof fn lemma_expand_push(rs: Seq<(int, u8)>, r: (int, u8))
    ensures
        expand(rs.push(r)) == expand(rs) + repeat_byte(r.1, r.0),
    decreases rs.len(),
{
    if rs.len() == 0 {
        assert(rs =~= Seq::<(int, u8)>::empty());
        assert(rs.push(r).drop_first() =~= rs);
        assert(rs.push(r).first() == r);
        assert(repeat_byte(r.1, r.0) + Seq::<u8>::empty() =~= repeat_byte(r.1, r.0));
        assert(expand(rs) + repeat_byte(r.1, r.0) =~= repeat_byte(r.1, r.0));
    } else {
        lemma_expand_push(rs.drop_first(), r);
        assert(rs.push(r).drop_first() =~= rs.drop_first().push(r));
        assert(rs.push(r).first() == rs.first());
        assert(repeat_byte(rs.first().1, rs.first().0) + (expand(rs.drop_first()) + repeat_byte(
            r.1,
            r.0,
        )) =~= (repeat_byte(rs.first().1, rs.first().0) + expand(rs.drop_first())) + repeat_byte(
            r.1,
            r.0,
        ));
    }
}

/// Expanding the runs of a sequence gives the sequence back.
pub proof fn lemma_runs_expand(s: Seq<u8>)
    ensures
        expand(runs_spec(s)) == s,
    decreases s.len(),
{
    if s.len() == 0 {
        assert(expand(runs_spec(s)) =~= s);
    } else {
        lemma_runs_expand(s.drop_last());
        lemma_runs_positive(s.drop_last());
        let prev = runs_spec(s.drop_last());
        let b = s.last();
        if prev.len() > 0 && prev.last().1 == b {
            let c = prev.last().0;
            let rs = prev.update(prev.len() - 1, (c + 1, b));
            assert(runs_spec(s) == rs);
            assert(prev.drop_last().push((c, b)) =~= prev);
            lemma_expand_push(prev.drop_last(), (c, b));
            assert(prev.drop_last().push((c + 1, b)) =~= rs);
            lemma_expand_push(prev.drop_last(), (c + 1, b));
            assert(c >= 1);
            assert(repeat_byte(b, c + 1) == repeat_byte(b, c).push(b));
            assert(expand(prev.drop_last()) + repeat_byte(b, c).push(b) =~= (expand(
                prev.drop_last(),
            ) + repeat_byte(b, c)).push(b));
            assert(s.drop_last().push(b) =~= s);
        } else {
            let rs = prev.push((1int, b));
            assert(runs_spec(s) == rs);
            lemma_expand_push(prev, (1int, b));
            assert(repeat_byte(b, 0) == Seq::<u8>::empty());
            assert(repeat_byte(b, 1) =~= seq![b]);
            assert(expand(prev) + seq![b] =~= expand(prev).push(b));
            assert(s.drop_last().push(b) =~= s);
        }
    }
}

/// Reading back the four count bytes of a record gives the count.
proof fn lemma_le_count_record(c: int)
    requires
        0 <= c <= 0x7FFF_FFFF,
    ensures
        le_count(
            (c % 256) as u8,
            ((c / 256) % 256) as u8,
            ((c / 65536) % 256) as u8,
            ((c / 16777216) % 256) as u8,
        ) == c,
{
    lemma_fundamental_div_mod(c, 256);
    lemma_fundamental_div_mod(c / 256, 256);
    lemma_fundamental_div_mod(c / 65536, 256);
    lemma_div_denominator(c, 256, 256);
    lemma_div_denominator(c, 65536, 256);
    lemma_div_is_ordered(c, 0x7FFF_FFFF, 16777216);
    assert(c / 16777216 >= 0) by {
        lemma_div_is_ordered(0, c, 16777216);
    }
    lemma_small_mod((c / 16777216) as nat, 256);
}

/// Decoding a record stream with counts the record can carry expands its runs.
pub proof fn lemma_decode_records(rs: Seq<(int, u8)>)
    requires
        forall|i: int| 0 <= i < rs.len() ==> 1 <= (#[trigger] rs[i]).0 <= 0x7FFF_FFFF,
    ensures
        well_formed(records_of(rs)),
        decode_spec(records_of(rs)) == expand(rs),
    decreases rs.len(),
{
    if rs.len() == 0 {
    } else {
        let r = rs.first();
        let t = records_of(rs);
        let rest = rs.drop_first();
        assert(rs[0] == r);
        assert forall|i: int| 0 <= i < rest.len() implies 1 <= (#[trigger] rest[i]).0
            <= 0x7FFF_FFFF by {
            assert(rest[i] == rs[i + 1]);
        }
        lemma_decode_records(rest);
        lemma_le_count_record(r.0);
        assert(t == record_of(r.0, r.1) + records_of(rest));
        assert(t[0] == (r.0 % 256) as u8);
        assert(t[1] == ((r.0 / 256) % 256) as u8);
        assert(t[2] == ((r.0 / 65536) % 256) as u8);
        assert(t[3] == ((r.0 / 16777216) % 256) as u8);
        assert(t[4] == r.1);
        assert(le_count(t[0], t[1], t[2], t[3]) == r.0);
        assert(t.skip(5) =~= records_of(rest));
        assert(decode_spec(t) == repeat_byte(r.1, r.0) + expand(rest));
    }
}

/// For every byte sequence whose runs the record format can carry, encoding
/// gives a well-formed stream and decoding it gives the sequence back.
pub proof fn lemma_round_trip(s: Seq<u8>)
    requires
        encodable(s),
    ensures
        well_formed(encode_spec(s)),
        decode_spec(encode_spec(s)) == s,
{
    lemma_runs_positive(s);
    lemma_decode_records(runs_spec(s));
    lemma_runs_expand(s);
}

proof fn lemma_records_len(rs: Seq<(int, u8)>)
    ensures
        records_of(rs).len() == 5 * rs.len(),
    decreases rs.len(),
{
    if rs.len() > 0 {
        lemma_records_len(rs.drop_first());
    }
}

/// The encoded stream is exactly five bytes per maximal run of the input.
pub proof fn lemma_record_count(s: Seq<u8>)
    ensures
        encode_spec(s).len() == 5 * run_count(s),
{
    lemma_records_len(runs_spec(s));
}

} // verus!
