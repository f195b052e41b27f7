use crate::error::KvsError;
use crate::le_bytes::{
    le_bytes, le_value, lemma_le_bytes_len, lemma_le_round_trip, pow256, u64_from_le, u64_to_le,
};
use vstd::prelude::*;

verus! {

/// A record on disk: the payload's length as eight little-endian bytes, then
/// the payload.
pub open spec fn framed(payload: Seq<u8>) -> Seq<u8> {
    le_bytes(payload.len(), 8) + payload
}

/// The bounds `(start, end)` of the records of a log file from `pos` on, or
/// `None` when the file ends inside a record.
pub open spec fn record_bounds(data: Seq<u8>, pos: int) -> Option<Seq<(int, int)>>
    decreases data.len() - pos,
{
    if pos < 0 || pos >= data.len() {
        Some(Seq::empty())
    } else if pos + 8 > data.len() {
        None
    } else {
        let end = pos + 8 + le_value(data.subrange(pos, pos + 8));
        if end > data.len() {
            None
        } else {
            match record_bounds(data, end) {
                Some(rest) => Some(seq![(pos, end)] + rest),
                None => None,
            }
        }
    }
}

/// Frames a payload as one record.
pub fn frame_record(payload: &Vec<u8>) -> (r: Vec<u8>)
    ensures
        r@ == framed(payload@),
{
    let mut r = u64_to_le(payload.len() as u64);
    let mut i: usize = 0;
    while i < payload.len()
        invariant
            i <= payload@.len(),
            r@ == le_bytes(payload@.len(), 8) + payload@.subrange(0, i as int),
        decreases payload@.len() - i,
    {
        r.push(payload[i]);
        i = i + 1;
        assert(r@ =~= le_bytes(payload@.len(), 8) + payload@.subrange(0, i as int));
    }
    assert(payload@.subrange(0, i as int) =~= payload@);
    r
}

/// A record's payload, when the record's length prefix matches its size.
pub fn record_payload(record: &[u8]) -> (r: Result<Vec<u8>, KvsError>)
    ensures
        match r {
            Ok(p) => record@ == framed(p@),
            Err(e) => (forall|p: Seq<u8>| record@ != framed(p)) && e is Serialization,
        },
{
    let n = record.len();
    if n < 8 {
        proof {
            assert forall|p: Seq<u8>| record@ != framed(p) by {
                lemma_le_bytes_len(p.len(), 8);
            }
        }
        return Err(KvsError::Serialization(String::from_str("truncated log record")));
    }
    let declared = u64_from_le(record, 0);
    if declared != (n - 8) as u64 {
        proof {
            assert forall|p: Seq<u8>| record@ != framed(p) by {
                lemma_le_bytes_len(p.len(), 8);
                if record@ == framed(p) {
                    lemma_le_round_trip_len(p.len());
                    assert(record@.subrange(0, 8) =~= le_bytes(p.len(), 8));
                }
            }
        }
        return Err(KvsError::Serialization(String::from_str("log record length mismatch")));
    }
    let mut p: Vec<u8> = Vec::new();
    let mut i: usize = 8;
    while i < n
        invariant
            8 <= i <= n,
            n == record@.len(),
            p@ == record@.subrange(8, i as int),
        decreases n - i,
    {
        p.push(record[i]);
        i = i + 1;
        assert(p@ =~= record@.subrange(8, i as int));
    }
    proof {
        lemma_le_round_trip_len(p@.len());
        assert(record@.subrange(0, 8) =~= le_bytes(p@.len(), 8)) by {
            lemma_le_unique(record@.subrange(0, 8), p@.len());
        }
        assert(record@ =~= framed(p@));
    }
    Ok(p)
}

proof fn lemma_le_round_trip_len(n: nat)
    requires
        n <= u64::MAX,
    ensures
        le_bytes(n, 8).len() == 8,
        le_value(le_bytes(n, 8)) == n,
{
    assert(pow256(8) == 0x1_0000_0000_0000_0000) by {
        reveal_with_fuel(pow256, 9);
    }
    lemma_le_round_trip(n, 8);
}

/// Bytes are the little-endian bytes of the number they denote.
proof fn lemma_le_unique(s: Seq<u8>, n: nat)
    requires
        le_value(s) == n,
    ensures
        s == le_bytes(n, s.len()),
    decreases s.len(),
{
    if s.len() > 0 {
        let rest = s.drop_first();
        assert(n % 256 == s[0] as nat && n / 256 == le_value(rest)) by (nonlinear_arith)
            requires
                n == s[0] as nat + 256 * le_value(rest),
                s[0] < 256,
        ;
        lemma_le_unique(rest, n / 256);
        assert(s =~= seq![(n % 256) as u8] + le_bytes(n / 256, (s.len() - 1) as nat));
    } else {
        assert(s =~= Seq::<u8>::empty());
    }
}

/// Splits the contents of a log file into its records, as `(start, end)`
/// pairs in order; fails when the file ends inside a record.
pub fn scan_records(data: &Vec<u8>) -> (r: Result<Vec<(u64, u64)>, KvsError>)
    ensures
        match r {
            Ok(v) => record_bounds(data@, 0) is Some && v@.len() == record_bounds(data@, 0)->Some_0.len()
                && forall|i: int|
                0 <= i < v@.len() ==> v@[i].0 as int == record_bounds(data@, 0)->Some_0[i].0
                    && v@[i].1 as int == record_bounds(data@, 0)->Some_0[i].1,
            Err(e) => record_bounds(data@, 0) is None && e is Serialization,
        },
{
    let n = data.len();
    let mut found: Vec<(u64, u64)> = Vec::new();
    let ghost mut found_int: Seq<(int, int)> = Seq::empty();
    let mut pos: usize = 0;
    while pos < n
        invariant
            pos <= n,
            n == data@.len(),
            found@.len() == found_int.len(),
            forall|i: int|
                0 <= i < found@.len() ==> found@[i].0 as int == found_int[i].0
                    && found@[i].1 as int == found_int[i].1,
            match record_bounds(data@, pos as int) {
                Some(rest) => record_bounds(data@, 0) == Some(found_int + rest),
                None => record_bounds(data@, 0) is None,
            },
        decreases n - pos,
    {
        if n - pos < 8 {
            return Err(KvsError::Serialization(String::from_str("log file ends inside a record")));
        }
        let len = u64_from_le(data.as_slice(), pos);
        if len > (n - pos - 8) as u64 {
            return Err(KvsError::Serialization(String::from_str("log file ends inside a record")));
        }
        let end = pos + 8 + len as usize;
        let ghost before = found_int;
        found.push((pos as u64, end as u64));
        proof {
            found_int = found_int.push((pos as int, end as int));
            match record_bounds(data@, end as int) {
                Some(rest) => {
                    assert(found_int + rest =~= before + (seq![(pos as int, end as int)] + rest));
                },
                None => {},
            }
        }
        pos = end;
    }
    proof {
        assert(found_int + Seq::<(int, int)>::empty() =~= found_int);
    }
    Ok(found)
}

} // verus!
