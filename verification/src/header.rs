//! Run-length serialization of the weight table.
//!
//! The format stores runs of nonzero weights as `first, last,
//! weight[first..=last]` and ends with a start byte of 0. At least one
//! byte is always emitted; a table with no nonzero weight among the 256
//! byte values serializes to the terminator alone. The end-of-stream
//! weight is never stored: it is fixed at 1 on both sides.

use vstd::prelude::*;

verus! {

use crate::bitfile::BitFile;
use crate::bitfile::CodecError;

/// The first index at or after `i` (up to 256) whose weight is nonzero.
pub open spec fn next_nonzero(w: Seq<u8>, i: int) -> int
    decreases 256 - i when i <= 256
{
    if i >= 256 {
        256
    } else if w[i] != 0 {
        i
    } else {
        next_nonzero(w, i + 1)
    }
}

/// The first index at or after `i` (up to 256) whose weight is zero.
pub open spec fn run_end(w: Seq<u8>, i: int) -> int
    decreases 256 - i when i <= 256
{
    if i >= 256 {
        256
    } else if w[i] == 0 {
        i
    } else {
        run_end(w, i + 1)
    }
}

/// The serialized runs from run start `first` on: each run's first and
/// last index, its weights, then the next run, ending with the
/// terminator byte.
pub open spec fn header_from(w: Seq<u8>, first: int) -> Seq<u8>
    decreases 256 - first when 0 <= first <= 256 via header_from_decreases
{
    if first >= 256 || w[first] == 0 {
        seq![0u8]
    } else {
        seq![first as u8, (run_end(w, first) - 1) as u8] + w.subrange(first, run_end(w, first))
            + header_from(w, next_nonzero(w, run_end(w, first)))
    }
}

#[via_fn]
proof fn header_from_decreases(w: Seq<u8>, first: int) {
    if !(first >= 256 || w[first] == 0) {
        lemma_run_end_bounds(w, first);
        lemma_next_nonzero_bounds(w, run_end(w, first));
    }
}

/// The complete serialized weight table.
pub open spec fn header_bytes(w: Seq<u8>) -> Seq<u8> {
    header_from(w, next_nonzero(w, 0))
}

proof fn lemma_next_nonzero_bounds(w: Seq<u8>, i: int)
    requires
        0 <= i <= 256,
    ensures
        i <= next_nonzero(w, i) <= 256,
        forall|t: int| i <= t < next_nonzero(w, i) ==> w[t] == 0,
        next_nonzero(w, i) < 256 ==> w[next_nonzero(w, i)] != 0,
    decreases 256 - i,
{
    if i < 256 && w[i] == 0 {
        lemma_next_nonzero_bounds(w, i + 1);
    }
}

proof fn lemma_run_end_bounds(w: Seq<u8>, i: int)
    requires
        0 <= i <= 256,
    ensures
        i <= run_end(w, i) <= 256,
        i < 256 && w[i] != 0 ==> run_end(w, i) > i,
        forall|t: int| i <= t < run_end(w, i) ==> w[t] != 0,
        run_end(w, i) < 256 ==> w[run_end(w, i)] == 0,
    decreases 256 - i,
{
    if i < 256 && w[i] != 0 {
        lemma_run_end_bounds(w, i + 1);
    }
}

proof fn lemma_next_nonzero_unique(w: Seq<u8>, i: int, f: int)
    requires
        0 <= i <= f <= 256,
        forall|t: int| i <= t < f ==> w[t] == 0,
        f < 256 ==> w[f] != 0,
    ensures
        next_nonzero(w, i) == f,
    decreases f - i,
{
    if i < f {
        lemma_next_nonzero_unique(w, i + 1, f);
    }
}

proof fn lemma_run_end_unique(w: Seq<u8>, i: int, e: int)
    requires
        0 <= i <= e <= 256,
        forall|t: int| i <= t < e ==> w[t] != 0,
        e < 256 ==> w[e] == 0,
    ensures
        run_end(w, i) == e,
    decreases e - i,
{
    if i < e {
        lemma_run_end_unique(w, i + 1, e);
    }
}

/// Serialize the weight table (entries 0..256 of `weights`) onto a
/// byte-aligned output channel.
pub fn output_counts(output: &mut BitFile, weights: &Vec<u8>)
    requires
        old(output).wf_writer(),
        old(output).out_bits().len() % 8 == 0,
        weights@.len() >= 256,
    ensures
        final(output).wf_writer(),
        final(output).out_bytes() == old(output).out_bytes() + header_bytes(weights@),
        final(output).out_bits().len() % 8 == 0,
{
    let ghost w = weights@;
    let mut first: usize = 0;
    while first < 256 && weights[first] == 0
        invariant
            weights@.len() >= 256,
            first <= 256,
            forall|t: int| 0 <= t < first ==> w[t] == 0,
            w == weights@,
        decreases 256 - first,
    {
        first = first + 1;
    }
    proof {
        lemma_next_nonzero_unique(w, 0, first as int);
        assert(header_bytes(w) == header_from(w, first as int));
    }
    while first < 256
        invariant
            output.wf_writer(),
            output.out_bits().len() % 8 == 0,
            weights@.len() >= 256,
            w == weights@,
            first <= 256,
            first < 256 ==> w[first as int] != 0,
            old(output).out_bytes() + header_bytes(w) == output.out_bytes() + header_from(
                w,
                first as int,
            ),
        decreases 256 - first,
    {
        let ghost bytes0 = output.out_bytes();
        let mut last: usize = first + 1;
        while last < 256 && weights[last] != 0
            invariant
                weights@.len() >= 256,
                w == weights@,
                first < last <= 256,
                forall|t: int| first <= t < last ==> w[t] != 0,
            decreases 256 - last,
        {
            last = last + 1;
        }
        proof {
            lemma_run_end_unique(w, first as int, last as int);
        }
        let ghost e = last as int;
        last = last - 1;
        let mut next: usize = last + 1;
        while next < 256 && weights[next] == 0
            invariant
                weights@.len() >= 256,
                w == weights@,
                e <= next <= 256,
                forall|t: int| e <= t < next ==> w[t] == 0,
            decreases 256 - next,
        {
            next = next + 1;
        }
        proof {
            lemma_next_nonzero_unique(w, e, next as int);
            assert(header_from(w, first as int) == seq![first as u8, (e - 1) as u8] + w.subrange(
                first as int,
                e,
            ) + header_from(w, next as int));
        }
        output.write_byte(first as u8);
        output.write_byte(last as u8);
        let mut i: usize = first;
        while i <= last
            invariant
                output.wf_writer(),
                output.out_bits().len() % 8 == 0,
                weights@.len() >= 256,
                w == weights@,
                first <= i <= last + 1,
                last < 256,
                e == last + 1,
                output.out_bytes() == bytes0 + seq![first as u8, last as u8] + w.subrange(
                    first as int,
                    i as int,
                ),
            decreases last + 1 - i,
        {
            output.write_byte(weights[i]);
            proof {
                assert(w.subrange(first as int, i + 1) =~= w.subrange(first as int, i as int).push(
                    w[i as int],
                ));
                assert(output.out_bytes() =~= bytes0 + seq![first as u8, last as u8] + w.subrange(
                    first as int,
                    i + 1,
                ));
            }
            i = i + 1;
        }
        proof {
            assert((e - 1) as u8 == last as u8);
            assert(old(output).out_bytes() + header_bytes(w) =~= output.out_bytes() + header_from(
                w,
                next as int,
            ));
        }
        first = next;
    }
    output.write_byte(0);
    proof {
        assert(header_from(w, first as int) == seq![0u8]);
        assert(final(output).out_bytes() =~= old(output).out_bytes() + header_bytes(w));
    }
}

/// A table with `ws` written in at positions `first..first + ws.len()`.
pub open spec fn write_run(tbl: Seq<u8>, first: int, ws: Seq<u8>) -> Seq<u8> {
    Seq::new(
        tbl.len(),
        |j: int|
            if first <= j < first + ws.len() {
                ws[j - first]
            } else {
                tbl[j]
            },
    )
}

/// Parse the runs that follow an already-consumed run start `first`:
/// yields the finished table and how many of the bytes `b` were used,
/// or nothing when the bytes run out too early.
pub open spec fn parse_runs(b: Seq<u8>, tbl: Seq<u8>, first: int) -> Option<(Seq<u8>, int)>
    decreases b.len(),
{
    if b.len() < 1 {
        None
    } else {
        let last = b[0] as int;
        let cnt = if last >= first {
            last - first + 1
        } else {
            0
        };
        if 1 + cnt >= b.len() {
            None
        } else {
            let tbl2 = write_run(tbl, first, b.subrange(1, 1 + cnt));
            if b[1 + cnt] == 0 {
                Some((tbl2, 2 + cnt))
            } else {
                match parse_runs(b.skip(2 + cnt), tbl2, b[1 + cnt] as int) {
                    Some((t, used)) => Some((t, 2 + cnt + used)),
                    None => None,
                }
            }
        }
    }
}

/// Parse a serialized weight table from the front of `b`: the 256
/// recovered weights and the number of bytes consumed. A lone
/// terminator byte is the empty table.
pub open spec fn parse_header(b: Seq<u8>) -> Option<(Seq<u8>, int)> {
    if b.len() < 1 {
        None
    } else if b[0] == 0 && b.len() == 1 {
        Some((Seq::new(256, |j: int| 0u8), 1))
    } else {
        match parse_runs(b.skip(1), Seq::new(256, |j: int| 0u8), b[0] as int) {
            Some((t, used)) => Some((t, 1 + used)),
            None => None,
        }
    }
}

/// Every serialized table occupies at least one byte.
proof fn lemma_header_from_len(w: Seq<u8>, first: int)
    requires
        0 <= first <= 256,
    ensures
        header_from(w, first).len() >= 1,
        header_from(w, first)[0] == if first >= 256 || w[first] == 0 {
            0u8
        } else {
            first as u8
        },
{
    if !(first >= 256 || w[first] == 0) {
        lemma_run_end_bounds(w, first);
    }
}

/// Parsing the serialization of the table from run start `first`
/// onwards, over a scratch table that already matches below `first` and
/// is clear from `first` up, recovers the table exactly.
proof fn lemma_parse_runs_round(w: Seq<u8>, tbl: Seq<u8>, first: int)
    requires
        w.len() == 256,
        tbl.len() == 256,
        0 <= first < 256,
        w[first] != 0,
        forall|j: int|
            0 <= j < 256 ==> tbl[j] == (if j < first {
                w[j]
            } else {
                0u8
            }),
    ensures
        parse_runs(header_from(w, first).skip(1), tbl, first) == Some(
            (w, header_from(w, first).len() - 1),
        ),
    decreases 256 - first,
{
    lemma_run_end_bounds(w, first);
    let e = run_end(w, first);
    lemma_next_nonzero_bounds(w, e);
    let next = next_nonzero(w, e);
    let hnext = header_from(w, next);
    lemma_header_from_len(w, next);
    let hb = header_from(w, first);
    let b = hb.skip(1);
    assert(b[0] == (e - 1) as u8);
    let cnt = e - first;
    assert((e - 1) as u8 as int == e - 1);
    assert(b.len() == 1 + cnt + hnext.len());
    assert(b.subrange(1, 1 + cnt) =~= w.subrange(first, e));
    let tbl2 = write_run(tbl, first, w.subrange(first, e));
    assert(forall|j: int|
        0 <= j < 256 ==> tbl2[j] == (if j < next {
            w[j]
        } else {
            0u8
        }));
    assert(b[1 + cnt] == hnext[0]);
    if next >= 256 {
        assert(hnext =~= seq![0u8]);
        assert(b[1 + cnt] == 0);
        assert(tbl2 =~= w);
        assert(b.len() == 2 + cnt);
    } else {
        assert(w[next] != 0);
        assert(hnext[0] == next as u8);
        assert(next > 0);
        assert(b[1 + cnt] != 0);
        assert(b.skip(2 + cnt) =~= hnext.skip(1));
        lemma_parse_runs_round(w, tbl2, next);
        assert(b[1 + cnt] as int == next);
        assert(parse_runs(b.skip(2 + cnt), tbl2, next) == Some((w, hnext.len() - 1)));
        assert(hb.len() - 1 == 2 + cnt + (hnext.len() - 1));
    }
}

/// Frequency header round trip: parsing the serialization of any weight
/// table over the 256 byte values recovers that table exactly and
/// consumes the whole serialization — including the all-zero table,
/// whose serialization is the lone terminator byte.
pub proof fn lemma_header_round_trip(w: Seq<u8>)
    requires
        w.len() == 256,
    ensures
        parse_header(header_bytes(w)) == Some((w, header_bytes(w).len() as int)),
{
    lemma_next_nonzero_bounds(w, 0);
    let f0 = next_nonzero(w, 0);
    let hb = header_bytes(w);
    let zeros = Seq::new(256, |j: int| 0u8);
    if f0 == 256 {
        assert(hb =~= seq![0u8]);
        assert(w =~= zeros);
    } else {
        lemma_header_from_len(w, f0);
        assert(hb[0] == f0 as u8);
        lemma_run_end_bounds(w, f0);
        assert(hb.len() >= 2);
        lemma_parse_runs_round(w, zeros, f0);
        assert(hb[0] as int == f0);
        assert(parse_header(hb) == Some((w, 1 + (hb.len() - 1))));
    }
}

/// Read a serialized weight table from a byte-aligned reader. The
/// consumed bytes parse to exactly the returned table; exhaustion midway
/// reports an error, on precisely the byte sequences the format refuses.
pub fn input_counts(input: &mut BitFile) -> (r: Result<Vec<u8>, CodecError>)
    requires
        old(input).wf_reader(),
        old(input).in_cursor() % 8 == 0,
    ensures
        final(input).wf_reader(),
        final(input).in_bytes() == old(input).in_bytes(),
        ({
            let rem = old(input).in_bytes().skip(old(input).in_cursor() / 8);
            match r {
                Ok(tbl) => {
                    &&& tbl@.len() == 256
                    &&& parse_header(rem) == Some(
                        (tbl@, (final(input).in_cursor() - old(input).in_cursor()) / 8),
                    )
                },
                Err(_) => parse_header(rem) is None,
            }
        }),
{
    let ghost n0 = old(input).in_cursor();
    let ghost all = old(input).in_bytes();
    let ghost rem = all.skip(n0 / 8);
    proof {
        crate::bitfile::lemma_cursor_in_range(*input);
        lemma_rem_skip(all, n0);
    }
    let mut tbl: Vec<u8> = Vec::new();
    let mut j: usize = 0;
    while j < 256
        invariant
            tbl@.len() == j,
            j <= 256,
            forall|t: int| 0 <= t < j ==> tbl@[t] == 0,
        decreases 256 - j,
    {
        tbl.push(0);
        j = j + 1;
    }
    proof {
        assert(tbl@ =~= Seq::new(256, |t: int| 0u8));
    }
    let first0 = match input.read_byte() {
        Ok(b) => b,
        Err(e) => {
            return Err(e);
        },
    };
    proof {
        lemma_rem_index(all, n0, 0);
        assert(rem[0] == first0);
    }
    if first0 == 0 {
        if !input.has_more() {
            proof {
                assert(n0 + 8 == 8 * all.len());
                assert(n0 / 8 + 1 == all.len()) by (nonlinear_arith)
                    requires
                        8 * (n0 / 8) == n0,
                        n0 + 8 == 8 * all.len(),
                ;
                assert(rem.len() == 1);
            }
            return Ok(tbl);
        }
    }
    proof {
        if first0 == 0 {
            assert(n0 + 8 < 8 * all.len());
            assert(n0 / 8 + 1 < all.len()) by (nonlinear_arith)
                requires
                    8 * (n0 / 8) == n0,
                    n0 + 8 < 8 * all.len(),
            ;
        }
        assert(rem.len() > 1 || rem[0] != 0);
    }
    let mut first: u8 = first0;
    let ghost mut c: int = 0;
    loop
        invariant
            input.wf_reader(),
            input.in_bytes() == all,
            all == old(input).in_bytes(),
            n0 == old(input).in_cursor(),
            n0 % 8 == 0,
            0 <= n0,
            rem == all.skip(n0 / 8),
            rem.len() == all.len() - n0 / 8,
            tbl@.len() == 256,
            0 <= c,
            1 + c <= rem.len(),
            input.in_cursor() == n0 + 8 * (1 + c),
            ({
                match parse_runs(rem.skip(1 + c), tbl@, first as int) {
                    Some((t, used)) => parse_header(rem) == Some((t, 1 + c + used)),
                    None => parse_header(rem) is None,
                }
            }),
        decreases rem.len() - c,
    {
        let ghost bcur = rem.skip(1 + c);
        let ghost tbl_start = tbl@;
        proof {
            crate::bitfile::lemma_cursor_in_range(*input);
            lemma_step8(all.len() as int, n0, 1 + c);
        }
        let last = match input.read_byte() {
            Ok(b) => b,
            Err(e) => {
                proof {
                    assert(bcur.len() < 1);
                }
                return Err(e);
            },
        };
        proof {
            lemma_rem_index(all, n0, 1 + c);
            assert(bcur[0] == all[n0 / 8 + 1 + c]);
            assert(bcur[0] == last);
        }
        let ghost cnt: int = if last as int >= first as int {
            last as int - first as int + 1
        } else {
            0
        };
        let steps: usize = if last >= first {
            (last as usize) - (first as usize) + 1
        } else {
            0
        };
        let mut k: usize = 0;
        proof {
            assert(steps == cnt);
            assert(bcur.subrange(1, 1) =~= Seq::<u8>::empty());
            assert(tbl@ =~= write_run(tbl_start, first as int, bcur.subrange(1, 1)));
        }
        while k < steps
            invariant
                input.wf_reader(),
                input.in_bytes() == all,
                all == old(input).in_bytes(),
                n0 == old(input).in_cursor(),
                n0 % 8 == 0,
                0 <= n0,
                rem == all.skip(n0 / 8),
                rem.len() == all.len() - n0 / 8,
                bcur == rem.skip(1 + c),
                0 <= c,
                1 + c + 1 <= rem.len(),
                bcur.len() == rem.len() - (1 + c),
                bcur.len() >= 1,
                bcur[0] == last,
                k <= steps,
                steps == cnt,
                cnt == if last as int >= first as int {
                    last as int - first as int + 1
                } else {
                    0
                },
                first as int + cnt <= 256,
                tbl@.len() == 256,
                tbl_start.len() == 256,
                input.in_cursor() == n0 + 8 * (1 + c + 1 + k),
                tbl@ == write_run(tbl_start, first as int, bcur.subrange(1, 1 + k)),
                ({
                    match parse_runs(bcur, tbl_start, first as int) {
                        Some((t, used)) => parse_header(rem) == Some((t, 1 + c + used)),
                        None => parse_header(rem) is None,
                    }
                }),
            decreases steps - k,
        {
            proof {
                crate::bitfile::lemma_cursor_in_range(*input);
                lemma_step8(all.len() as int, n0, 1 + c + 1 + k);
            }
            let wb = match input.read_byte() {
                Ok(b) => b,
                Err(e) => {
                    proof {
                        assert(bcur.len() <= 1 + k);
                        assert(1 + cnt >= bcur.len());
                    }
                    return Err(e);
                },
            };
            proof {
                lemma_rem_index(all, n0, 1 + c + 1 + k);
                assert(1 + c + 1 + k < rem.len());
                assert(bcur[1 + k] == all[n0 / 8 + 1 + c + 1 + k]);
                assert(bcur[1 + k] == wb);
            }
            tbl.set(first as usize + k, wb);
            proof {
                assert(bcur.subrange(1, 1 + k + 1) =~= bcur.subrange(1, 1 + k as int).push(
                    bcur[1 + k],
                ));
                assert(tbl@ =~= write_run(tbl_start, first as int, bcur.subrange(1, 2 + k)));
            }
            k = k + 1;
        }
        proof {
            crate::bitfile::lemma_cursor_in_range(*input);
            lemma_step8(all.len() as int, n0, 1 + c + 1 + steps);
        }
        let nf = match input.read_byte() {
            Ok(b) => b,
            Err(e) => {
                proof {
                    assert(bcur.len() <= 1 + cnt);
                    assert(1 + cnt >= bcur.len());
                }
                return Err(e);
            },
        };
        proof {
            lemma_rem_index(all, n0, 1 + c + 1 + steps);
            assert(1 + cnt < bcur.len());
            assert(bcur[1 + cnt] == all[n0 / 8 + 1 + c + 1 + steps]);
            assert(bcur[1 + cnt] == nf);
            assert(tbl@ == write_run(tbl_start, first as int, bcur.subrange(1, 1 + cnt)));
        }
        if nf == 0 {
            proof {
                assert(parse_runs(bcur, tbl_start, first as int) == Some((tbl@, 2 + cnt)));
                lemma_div8(1 + c + 2 + cnt);
            }
            return Ok(tbl);
        }
        proof {
            assert(bcur.skip(2 + cnt) =~= rem.skip(1 + c + 2 + cnt));
            assert(parse_runs(bcur, tbl_start, first as int) == (match parse_runs(
                rem.skip(1 + c + 2 + cnt),
                tbl@,
                nf as int,
            ) {
                Some((t, used)) => Some((t, 2 + cnt + used)),
                None => None::<(Seq<u8>, int)>,
            }));
            c = c + 2 + cnt;
        }
        first = nf;
    }
}

/// Arithmetic of the byte cursor `n0 + 8m` over a stream of `all_len`
/// bytes, for a byte-aligned base cursor `n0`.
proof fn lemma_step8(all_len: int, n0: int, m: int)
    requires
        0 <= n0,
        n0 % 8 == 0,
        0 <= m,
    ensures
        0 <= n0 / 8,
        (n0 + 8 * m) % 8 == 0,
        (n0 + 8 * m) / 8 == n0 / 8 + m,
        n0 + 8 * m < 8 * all_len ==> n0 / 8 + m < all_len,
        n0 + 8 * m >= 8 * all_len ==> n0 / 8 + m >= all_len,
{
    vstd::arithmetic::div_mod::lemma_fundamental_div_mod(n0, 8);
    assert(n0 / 8 >= 0) by (nonlinear_arith)
        requires
            8 * (n0 / 8) == n0,
            n0 >= 0,
    ;
    lemma_div8(n0 / 8 + m);
    assert(n0 + 8 * m == 8 * (n0 / 8 + m)) by (nonlinear_arith)
        requires
            8 * (n0 / 8) == n0,
    ;
    assert(n0 + 8 * m < 8 * all_len ==> n0 / 8 + m < all_len) by (nonlinear_arith)
        requires
            n0 + 8 * m == 8 * (n0 / 8 + m),
    ;
    assert(n0 + 8 * m >= 8 * all_len ==> n0 / 8 + m >= all_len) by (nonlinear_arith)
        requires
            n0 + 8 * m == 8 * (n0 / 8 + m),
    ;
}

/// Entry `i` of the remainder of `all` past byte position `n0 / 8`.
proof fn lemma_rem_index(all: Seq<u8>, n0: int, i: int)
    requires
        0 <= n0,
        n0 % 8 == 0,
        0 <= i,
        n0 + 8 * i < 8 * all.len(),
    ensures
        0 <= n0 / 8,
        n0 / 8 + i < all.len(),
        all.skip(n0 / 8)[i] == all[n0 / 8 + i],
        (n0 + 8 * i) / 8 == n0 / 8 + i,
        (n0 + 8 * i) % 8 == 0,
{
    lemma_step8(all.len() as int, n0, i);
}

proof fn lemma_div8(a: int)
    by (nonlinear_arith)
    requires
        0 <= a,
    ensures
        (8 * a) / 8 == a,
        (8 * a) % 8 == 0,
{
}

/// The remainder past byte position `n0 / 8` of a stream of at least
/// `n0` bits.
proof fn lemma_rem_skip(all: Seq<u8>, n0: int)
    requires
        0 <= n0 <= 8 * all.len(),
        n0 % 8 == 0,
    ensures
        0 <= n0 / 8 <= all.len(),
        all.skip(n0 / 8).len() == all.len() - n0 / 8,
        8 * (n0 / 8) == n0,
{
    vstd::arithmetic::div_mod::lemma_fundamental_div_mod(n0, 8);
    assert(n0 / 8 >= 0 && n0 / 8 <= all.len()) by (nonlinear_arith)
        requires
            8 * (n0 / 8) == n0,
            0 <= n0 <= 8 * all.len(),
    ;
}

} // verus!
