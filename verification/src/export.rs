//! The exporter: the finished store, one text line per record.
//!
//! Each record becomes the line `p,nextval\n`, decimal digits, in store
//! order. The output is a pure function of the records, so exporting the
//! same store twice yields byte-identical text.

use vstd::prelude::*;
use crate::record::PrimeRecord;
use crate::store::PrimeStore;

verus! {

/// The decimal digits of `n`, most significant first, as their byte
/// values.
pub open spec fn dec_digits(n: nat) -> Seq<u8>
    decreases n,
{
    if n < 10 {
        seq![(48 + n) as u8]
    } else {
        dec_digits(n / 10) + seq![(48 + n % 10) as u8]
    }
}

/// One exported line: `p`, a comma, `nextval`, a newline.
pub open spec fn csv_line(r: PrimeRecord) -> Seq<u8> {
    dec_digits(r.p as nat) + seq![44u8] + dec_digits(r.nextval as nat) + seq![10u8]
}

/// The whole export: one line per record, in store order.
pub open spec fn csv_text(recs: Seq<PrimeRecord>) -> Seq<u8>
    decreases recs.len(),
{
    if recs.len() == 0 {
        Seq::empty()
    } else {
        csv_text(recs.drop_last()) + csv_line(recs.last())
    }
}

/// Appends the decimal digits of `n` to `out`.
fn push_dec(out: &mut Vec<u8>, n: u64)
    ensures
        final(out)@ == old(out)@ + dec_digits(n as nat),
    decreases n,
{
    if n < 10 {
        out.push(48 + n as u8);
        proof {
            assert(out@ =~= old(out)@ + dec_digits(n as nat));
        }
    } else {
        proof {
            assert(n / 10 < n) by (nonlinear_arith)
                requires
                    n >= 10,
            ;
        }
        push_dec(out, n / 10);
        out.push(48 + (n % 10) as u8);
        proof {
            assert((n / 10) as nat == (n as nat) / 10);
            assert((n % 10) as nat == (n as nat) % 10);
            assert(out@ =~= old(out)@ + dec_digits(n as nat));
        }
    }
}

/// Converts the store to its text form in one sequential read pass,
/// leaving the records untouched and the cursor at the end.
pub fn export_csv(store: &mut PrimeStore) -> (out: Vec<u8>)
    requires
        old(store).wf(),
    ensures
        final(store).wf(),
        final(store)@ == old(store)@,
        out@ == csv_text(old(store)@),
{
    let mut out: Vec<u8> = Vec::new();
    store.rewind();
    let n = store.record_count();
    let mut i: usize = 0;
    while i < n
        invariant
            i <= n,
            n == store@.len(),
            store.wf(),
            store@ == old(store)@,
            store.cursor() == i as int,
            out@ == csv_text(store@.take(i as int)),
        decreases n - i,
    {
        let rec_opt = store.read_next();
        match rec_opt {
            Some(rec) => {
                let ghost before = out@;
                push_dec(&mut out, rec.p);
                out.push(44);
                push_dec(&mut out, rec.nextval);
                out.push(10);
                proof {
                    let taken = store@.take(i as int + 1);
                    assert(taken.drop_last() =~= store@.take(i as int));
                    assert(taken.last() == store@[i as int]);
                    assert(out@ =~= before + csv_line(store@[i as int]));
                }
            }
            None => {
                proof {
                    assert(false);
                }
            }
        }
        i = i + 1;
    }
    proof {
        assert(store@.take(n as int) =~= store@);
    }
    out
}

/// Exporting the same records twice yields byte-identical text: the
/// exporter is deterministic, its output a function of the records
/// alone.
pub proof fn lemma_export_deterministic(
    recs: Seq<PrimeRecord>,
    out1: Seq<u8>,
    out2: Seq<u8>,
)
    requires
        out1 == csv_text(recs),
        out2 == csv_text(recs),
    ensures
        out1 == out2,
{
}

} // verus!
