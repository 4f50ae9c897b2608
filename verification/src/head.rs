//! Head extraction: the first `n` bytes or the first `k` line records of a
//! source's content.

use vstd::prelude::*;

verus! {

/// The first `n` bytes of `data`, or all of it if it is shorter.
pub open spec fn spec_head_bytes(data: Seq<u8>, n: nat) -> Seq<u8> {
    if n <= data.len() {
        data.take(n as int)
    } else {
        data
    }
}

/// The line terminator byte.
pub open spec fn newline() -> u8 {
    10
}

/// The bytes of the first `k` line records of `data`: everything up to and
/// including the `k`-th terminator, or all of `data` if it ends first. A
/// final unterminated run counts as one record and is kept whole.
pub open spec fn spec_head_lines(data: Seq<u8>, k: nat) -> Seq<u8>
    decreases data.len(),
{
    if k == 0 || data.len() == 0 {
        Seq::empty()
    } else if data[0] == newline() {
        seq![newline()] + spec_head_lines(data.drop_first(), (k - 1) as nat)
    } else {
        seq![data[0]] + spec_head_lines(data.drop_first(), k)
    }
}

/// The first line record of `data`: its bytes up to and including the first
/// terminator, or all of `data` if no terminator occurs.
pub open spec fn first_record(data: Seq<u8>) -> Seq<u8> {
    spec_head_lines(data, 1)
}

/// `data` split into its line records, terminators included.
pub open spec fn line_records(data: Seq<u8>) -> Seq<Seq<u8>>
    decreases data.len(),
    via line_records_decreases
{
    if data.len() == 0 {
        Seq::empty()
    } else {
        seq![first_record(data)] + line_records(data.skip(first_record(data).len() as int))
    }
}

#[via_fn]
proof fn line_records_decreases(data: Seq<u8>) {
    if data.len() > 0 {
        lemma_head_lines_len(data, 1);
    }
}

/// Concatenation of a sequence of byte sequences, in order.
pub open spec fn concat_all(parts: Seq<Seq<u8>>) -> Seq<u8>
    decreases parts.len(),
{
    if parts.len() == 0 {
        Seq::empty()
    } else {
        parts.first() + concat_all(parts.drop_first())
    }
}

/// The head in lines is never longer than the data, and is non-empty as soon
/// as at least one record is asked of non-empty data.
pub proof fn lemma_head_lines_len(data: Seq<u8>, k: nat)
    ensures
        spec_head_lines(data, k).len() <= data.len(),
        k >= 1 && data.len() >= 1 ==> spec_head_lines(data, k).len() >= 1,
    decreases data.len(),
{
    if k == 0 || data.len() == 0 {
    } else if data[0] == newline() {
        lemma_head_lines_len(data.drop_first(), (k - 1) as nat);
    } else {
        lemma_head_lines_len(data.drop_first(), k);
    }
}

/// The head in lines is a prefix of the data: records are emitted verbatim.
pub proof fn lemma_head_lines_prefix(data: Seq<u8>, k: nat)
    ensures
        spec_head_lines(data, k) == data.take(spec_head_lines(data, k).len() as int),
    decreases data.len(),
{
    lemma_head_lines_len(data, k);
    if k == 0 || data.len() == 0 {
        assert(spec_head_lines(data, k) =~= data.take(0));
    } else {
        let k2: nat = if data[0] == newline() {
            (k - 1) as nat
        } else {
            k
        };
        lemma_head_lines_prefix(data.drop_first(), k2);
        lemma_head_lines_len(data.drop_first(), k2);
        let m = spec_head_lines(data.drop_first(), k2).len() as int;
        assert(spec_head_lines(data, k) =~= data.take(m + 1));
    }
}

/// Taking `k` records is taking one record and then `k - 1` records of what
/// follows it.
proof fn lemma_head_lines_step(data: Seq<u8>, k: nat)
    requires
        k >= 1,
        data.len() >= 1,
    ensures
        spec_head_lines(data, k) == first_record(data) + spec_head_lines(
            data.skip(first_record(data).len() as int),
            (k - 1) as nat,
        ),
    decreases data.len(),
{
    lemma_head_lines_len(data, 1);
    if data[0] == newline() {
        assert(spec_head_lines(data.drop_first(), 0) == Seq::<u8>::empty());
        assert(first_record(data) =~= seq![newline()]);
        assert(data.skip(1) =~= data.drop_first());
        assert(spec_head_lines(data, k) =~= first_record(data) + spec_head_lines(
            data.skip(1),
            (k - 1) as nat,
        ));
    } else {
        let rest = data.drop_first();
        if rest.len() == 0 {
            assert(spec_head_lines(rest, 1) == Seq::<u8>::empty());
            assert(spec_head_lines(rest, k) == Seq::<u8>::empty());
            assert(first_record(data) =~= seq![data[0]]);
            assert(data.skip(1) =~= rest);
            assert(spec_head_lines(data, k) =~= seq![data[0]]);
            assert(spec_head_lines(data, k) =~= first_record(data) + spec_head_lines(
                data.skip(1),
                (k - 1) as nat,
            ));
        } else {
            lemma_head_lines_step(rest, k);
            lemma_head_lines_len(rest, 1);
            let fr = first_record(rest);
            assert(first_record(data) =~= seq![data[0]] + fr);
            assert(data.skip(first_record(data).len() as int) =~= rest.skip(fr.len() as int));
            assert(spec_head_lines(data, k) =~= first_record(data) + spec_head_lines(
                data.skip(first_record(data).len() as int),
                (k - 1) as nat,
            ));
        }
    }
}

/// The head in lines is exactly the concatenation of the first
/// `min(k, total)` line records, where `total` is the number of records in
/// the data; each record keeps its original terminator.
pub proof fn lemma_head_lines_is_leading_records(data: Seq<u8>, k: nat)
    ensures
        spec_head_lines(data, k) == concat_all(
            line_records(data).take(
                if k <= line_records(data).len() {
                    k as int
                } else {
                    line_records(data).len() as int
                },
            ),
        ),
    decreases data.len(),
{
    let records = line_records(data);
    let m: int = if k <= records.len() {
        k as int
    } else {
        records.len() as int
    };
    if data.len() == 0 {
        assert(records =~= Seq::<Seq<u8>>::empty());
        assert(spec_head_lines(data, k) =~= concat_all(records.take(m)));
    } else if k == 0 {
        assert(records.take(0) =~= Seq::<Seq<u8>>::empty());
        assert(spec_head_lines(data, k) =~= concat_all(records.take(m)));
    } else {
        lemma_head_lines_len(data, 1);
        let fr = first_record(data);
        let rest = data.skip(fr.len() as int);
        lemma_head_lines_step(data, k);
        lemma_head_lines_is_leading_records(rest, (k - 1) as nat);
        let sub = line_records(rest);
        assert(records =~= seq![fr] + sub);
        let m2: int = if k - 1 <= sub.len() {
            k - 1
        } else {
            sub.len() as int
        };
        assert(m == m2 + 1);
        assert(records.take(m).first() == fr);
        assert(records.take(m).drop_first() =~= sub.take(m2));
        assert(concat_all(records.take(m)) == fr + concat_all(sub.take(m2)));
    }
}

/// The records of the data concatenate back to the data itself: splitting
/// into line records loses and reorders nothing.
pub proof fn lemma_records_concat(data: Seq<u8>)
    ensures
        concat_all(line_records(data)) == data,
    decreases data.len(),
{
    if data.len() == 0 {
        assert(concat_all(line_records(data)) =~= data);
    } else {
        lemma_head_lines_len(data, 1);
        let fr = first_record(data);
        let rest = data.skip(fr.len() as int);
        lemma_records_concat(rest);
        lemma_head_lines_prefix(data, 1);
        assert(line_records(data).first() == fr);
        assert(line_records(data).drop_first() =~= line_records(rest));
        assert(fr + rest =~= data);
    }
}

/// Appending one more part extends the concatenation at its end.
pub proof fn lemma_concat_all_push(parts: Seq<Seq<u8>>, part: Seq<u8>)
    ensures
        concat_all(parts.push(part)) == concat_all(parts) + part,
    decreases parts.len(),
{
    if parts.len() == 0 {
        assert(parts.push(part).first() == part);
        assert(parts.push(part).drop_first() =~= Seq::<Seq<u8>>::empty());
        assert(concat_all(parts.push(part).drop_first()) == Seq::<u8>::empty());
        assert(concat_all(parts.push(part)) == part + Seq::<u8>::empty());
        assert(part + Seq::<u8>::empty() =~= Seq::<u8>::empty() + part);
        assert(concat_all(parts.push(part)) =~= concat_all(parts) + part);
    } else {
        lemma_concat_all_push(parts.drop_first(), part);
        assert(parts.push(part).first() == parts.first());
        assert(parts.push(part).drop_first() =~= parts.drop_first().push(part));
        assert(concat_all(parts.push(part)) == parts.first() + concat_all(
            parts.drop_first().push(part),
        ));
        assert(parts.first() + (concat_all(parts.drop_first()) + part) =~= (parts.first()
            + concat_all(parts.drop_first())) + part);
        assert(concat_all(parts) == parts.first() + concat_all(parts.drop_first()));
    }
}

/// Returns the first `n` bytes of `data`, or all of it if it is shorter.
pub fn head_bytes(data: &Vec<u8>, n: usize) -> (r: Vec<u8>)
    ensures
        r@ == spec_head_bytes(data@, n as nat),
{
    let end: usize = if n <= data.len() {
        n
    } else {
        data.len()
    };
    let mut r: Vec<u8> = Vec::new();
    let mut i: usize = 0;
    while i < end
        invariant
            0 <= i <= end <= data@.len(),
            r@ == data@.take(i as int),
        decreases end - i,
    {
        r.push(data[i]);
        proof {
            assert(data@.take(i + 1) =~= data@.take(i as int).push(data@[i as int]));
        }
        i = i + 1;
    }
    proof {
        if n > data@.len() {
            assert(data@.take(data@.len() as int) =~= data@);
        }
    }
    r
}

/// Returns the first `k` line records of `data`, each with its original
/// terminator; fewer if the data ends first, a final unterminated run
/// counting as one record.
pub fn head_lines(data: &Vec<u8>, k: usize) -> (r: Vec<u8>)
    ensures
        r@ == spec_head_lines(data@, k as nat),
{
    let mut r: Vec<u8> = Vec::new();
    let mut i: usize = 0;
    let mut seen: usize = 0;
    proof {
        assert(data@.skip(0) =~= data@);
        assert(Seq::<u8>::empty() + spec_head_lines(data@, k as nat) =~= spec_head_lines(
            data@,
            k as nat,
        ));
    }
    while i < data.len() && seen < k
        invariant
            0 <= i <= data@.len(),
            seen <= k,
            r@ == data@.take(i as int),
            spec_head_lines(data@, k as nat) == r@ + spec_head_lines(
                data@.skip(i as int),
                (k - seen) as nat,
            ),
        decreases data@.len() - i,
    {
        let b = data[i];
        r.push(b);
        proof {
            let tail = data@.skip(i as int);
            assert(tail.len() > 0 && tail[0] == b);
            assert(tail.drop_first() =~= data@.skip(i + 1));
            assert(data@.take(i + 1) =~= data@.take(i as int).push(b));
            if b == newline() {
                let tl = spec_head_lines(data@.skip(i + 1), (k - seen - 1) as nat);
                assert(spec_head_lines(tail, (k - seen) as nat) == seq![b] + tl);
                assert(r@.push(b) + tl =~= r@ + (seq![b] + tl));
            } else {
                let tl = spec_head_lines(data@.skip(i + 1), (k - seen) as nat);
                assert(spec_head_lines(tail, (k - seen) as nat) == seq![b] + tl);
                assert(r@.push(b) + tl =~= r@ + (seq![b] + tl));
            }
        }
        if b == 10 {
            seen = seen + 1;
        }
        i = i + 1;
    }
    proof {
        if seen == k {
            assert(spec_head_lines(data@.skip(i as int), 0) =~= Seq::<u8>::empty());
        } else {
            assert(data@.skip(i as int).len() == 0);
        }
        assert(r@ + Seq::<u8>::empty() =~= r@);
    }
    r
}

} // verus!
