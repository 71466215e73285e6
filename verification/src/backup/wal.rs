use vstd::prelude::*;

use crate::backup::manifest::BackupError;
use crate::disk::bytes::{le_value, read_le};
use crate::text::{decimal_text, push_decimal, push_text};
use vstd::slice::slice_subrange;

verus! {

/// Why a dump of write-ahead-log records does not parse.
pub enum WalProblem {
    /// Fewer than 12 bytes are left for a record header.
    TruncatedHeader,
    /// The record at this log offset claims this many bytes but only this many remain.
    ShortPayload(u64, u64, int),
}

/// The message of a problem.
pub open spec fn wal_problem_message(p: WalProblem) -> Seq<char> {
    match p {
        WalProblem::TruncatedHeader => "truncated record header"@,
        WalProblem::ShortPayload(offset, len, remain) => "record at offset "@ + decimal_text(offset as nat)
            + " claims "@ + decimal_text(len as nat) + " bytes but only "@ + decimal_text(remain as nat)
            + " remain"@,
    }
}

/// The records of `b` from byte `c` on: each is its log offset (8 bytes, little-endian), the
/// length of its payload (4 bytes, little-endian) and the payload.
pub open spec fn wal_records_from(b: Seq<u8>, c: int) -> Result<Seq<(u64, Seq<u8>)>, WalProblem>
    decreases b.len() - c,
{
    if c < 0 || c >= b.len() {
        Ok(Seq::empty())
    } else if c + 12 > b.len() {
        Err(WalProblem::TruncatedHeader)
    } else {
        let offset = le_value(b.subrange(c, c + 8)) as u64;
        let len = le_value(b.subrange(c + 8, c + 12));
        if c + 12 + len > b.len() {
            Err(WalProblem::ShortPayload(offset, len as u64, b.len() - (c + 12)))
        } else {
            match wal_records_from(b, c + 12 + len) {
                Ok(rest) => Ok(seq![(offset, b.subrange(c + 12, c + 12 + len))] + rest),
                Err(p) => Err(p),
            }
        }
    }
}

/// The records of a dump of the write-ahead log, in order, or why it does not parse.
pub fn parse_wal_records(bytes: &[u8]) -> (r: Result<Vec<(u64, Vec<u8>)>, BackupError>)
    ensures
        match wal_records_from(bytes@, 0) {
            Ok(rs) => r matches Ok(v) && v@.len() == rs.len() && forall|k: int|
                0 <= k < rs.len() ==> (#[trigger] v@[k]).0 == rs[k].0 && v@[k].1@ == rs[k].1,
            Err(p) => r matches Err(BackupError::CorruptRecord(m)) && m@ == wal_problem_message(p),
        },
{
    let n = bytes.len();
    let mut records: Vec<(u64, Vec<u8>)> = Vec::new();
    let mut cursor: usize = 0;
    let ghost b = bytes@;
    while cursor < n
        invariant
            b == bytes@,
            n == b.len(),
            cursor <= n,
            match wal_records_from(b, 0) {
                Ok(all) => wal_records_from(b, cursor as int) matches Ok(rest) && all.len() == records@.len() + rest.len()
                    && rest == all.subrange(records@.len() as int, all.len() as int) && (forall|k: int|
                    0 <= k < records@.len() ==> (#[trigger] records@[k]).0 == all[k].0 && records@[k].1@ == all[k].1),
                Err(p) => wal_records_from(b, cursor as int) == Err::<Seq<(u64, Seq<u8>)>, WalProblem>(p),
            },
        decreases n - cursor,
    {
        let ghost k = records@.len() as int;
        proof {
            if wal_records_from(b, 0) is Ok {
                let all = wal_records_from(b, 0)->Ok_0;
                assert(wal_records_from(b, cursor as int) is Ok);
                assert(wal_records_from(b, cursor as int)->Ok_0 == all.subrange(k, all.len() as int));
            }
        }
        if n - cursor < 12 {
            let mut m = String::new();
            push_text(&mut m, "truncated record header");
            proof {
                reveal_strlit("truncated record header");
            }
            return Err(BackupError::CorruptRecord(m));
        }
        let offset = read_le(bytes, cursor, 8);
        let len64 = read_le(bytes, cursor + 8, 4);
        proof {
            crate::disk::bytes::lemma_le_value_bound(b.subrange(cursor + 8, cursor + 12));
            crate::disk::bytes::lemma_le_value_bound(b.subrange(cursor as int, cursor + 8));
            crate::disk::bytes::lemma_pow256_values();
            assert(len64 < 0x1_0000_0000);
        }
        let len = len64 as usize;
        let body = cursor + 12;
        if len > n - body {
            let mut m = String::new();
            push_text(&mut m, "record at offset ");
            push_decimal(&mut m, offset);
            push_text(&mut m, " claims ");
            push_decimal(&mut m, len64);
            push_text(&mut m, " bytes but only ");
            push_decimal(&mut m, (n - body) as u64);
            push_text(&mut m, " remain");
            proof {
                reveal_strlit("record at offset ");
                reveal_strlit(" claims ");
                reveal_strlit(" bytes but only ");
                reveal_strlit(" remain");
                assert(m@ =~= wal_problem_message(WalProblem::ShortPayload(offset, len64, n - body)));
            }
            return Err(BackupError::CorruptRecord(m));
        }
        let payload_slice = slice_subrange(bytes, body, body + len);
        let mut payload: Vec<u8> = Vec::new();
        let mut j: usize = 0;
        while j < payload_slice.len()
            invariant
                j <= payload_slice@.len(),
                payload@ == payload_slice@.subrange(0, j as int),
            decreases payload_slice@.len() - j,
        {
            payload.push(payload_slice[j]);
            proof {
                assert(payload@ =~= payload_slice@.subrange(0, j + 1));
            }
            j += 1;
        }
        proof {
            assert(payload_slice@.subrange(0, payload_slice@.len() as int) =~= payload_slice@);
        }
        records.push((offset, payload));
        proof {
            assert(records@[k].1@ == b.subrange(body as int, body + len));
            assert(le_value(b.subrange(cursor as int, cursor + 8)) as u64 == offset);
            assert(wal_records_from(b, cursor as int) == match wal_records_from(b, (body + len) as int) {
                Ok(rest) => Ok(seq![(offset, b.subrange(body as int, body + len))] + rest),
                Err(p) => Err(p),
            });
            match wal_records_from(b, 0) {
                Ok(all) => {
                    let rest = wal_records_from(b, cursor as int)->Ok_0;
                    let rest2 = wal_records_from(b, (body + len) as int)->Ok_0;
                    assert(rest == seq![(offset, b.subrange(body as int, body + len))] + rest2);
                    assert(rest[0] == all[k]);
                    assert(rest2 =~= rest.subrange(1, rest.len() as int));
                    assert(rest.subrange(1, rest.len() as int) =~= all.subrange(k + 1, all.len() as int));
                },
                Err(p) => {},
            }
        }
        cursor = body + len;
    }
    proof {
        match wal_records_from(b, 0) {
            Ok(all) => {
                assert(records@.len() == all.len());
            },
            Err(p) => {},
        }
    }
    Ok(records)
}

} // verus!
