use vstd::prelude::*;

verus! {

/// Number of zero bytes that must precede the 1 of an Annex-B start code.
pub const NAL_MIN_0_COUNT: usize = 2;

/// Length of the run of zero bytes ending just before index `i`.
pub open spec fn zero_run(buf: Seq<u8>, i: int) -> int
    decreases i,
{
    if i <= 0 || i > buf.len() || buf[i - 1] != 0 {
        0
    } else {
        zero_run(buf, i - 1) + 1
    }
}

/// Index `i` holds the 1 of a start code: a 1 preceded by at least two zero
/// bytes.
pub open spec fn is_start(buf: Seq<u8>, i: int) -> bool {
    0 <= i < buf.len() && buf[i] == 1 && zero_run(buf, i) >= NAL_MIN_0_COUNT
}

/// Number of start codes strictly before index `upto`.
pub open spec fn count_starts(buf: Seq<u8>, upto: int) -> nat
    decreases upto,
{
    if upto <= 0 {
        0
    } else {
        count_starts(buf, upto - 1) + if is_start(buf, upto - 1) {
            1nat
        } else {
            0nat
        }
    }
}

/// The zero-run before `i` depends only on the bytes before `i`.
pub proof fn lemma_zero_run_take(buf: Seq<u8>, n: int, i: int)
    requires
        0 <= i <= n <= buf.len(),
    ensures
        zero_run(buf.take(n), i) == zero_run(buf, i),
    decreases i,
{
    if i > 0 {
        lemma_zero_run_take(buf, n, i - 1);
    }
}

/// A zero-run of length two or more pins the last two bytes before `i`.
pub proof fn lemma_zero_run_two(buf: Seq<u8>, i: int)
    requires
        zero_run(buf, i) >= 2,
    ensures
        2 <= i <= buf.len(),
        buf[i - 1] == 0,
        buf[i - 2] == 0,
{
    assert(!(i <= 0 || i > buf.len() || buf[i - 1] != 0));
    assert(zero_run(buf, i - 1) >= 1);
    assert(!(i - 1 <= 0 || i - 1 > buf.len() || buf[i - 2] != 0));
}

/// The number of start codes before `upto` depends only on the bytes before
/// `n >= upto`.
pub proof fn lemma_count_starts_take(buf: Seq<u8>, n: int, upto: int)
    requires
        0 <= upto <= n <= buf.len(),
    ensures
        count_starts(buf.take(n), upto) == count_starts(buf, upto),
    decreases upto,
{
    if upto > 0 {
        lemma_count_starts_take(buf, n, upto - 1);
        if upto - 1 < n {
            lemma_zero_run_take(buf, n, upto - 1);
        }
    }
}

pub proof fn lemma_count_starts_monotone(buf: Seq<u8>, i: int, j: int)
    requires
        i <= j,
    ensures
        count_starts(buf, i) <= count_starts(buf, j),
    decreases j - i,
{
    if i < j {
        lemma_count_starts_monotone(buf, i, j - 1);
    }
}

/// Extracts the starting position of the n-th NAL unit from the given byte
/// buffer: the returned index points at the first of the two zero bytes of
/// the n-th start code, counted from zero in buffer order. `None` when the
/// buffer holds no more than `nth` start codes.
pub fn nth_nal_index(buffer: &Vec<u8>, nth: usize) -> (r: Option<usize>)
    ensures
        r matches Some(s) ==> s + 2 < buffer@.len() && is_start(buffer@, s + 2) && count_starts(
            buffer@,
            s + 2,
        ) == nth,
        r is None <==> count_starts(buffer@, buffer@.len() as int) <= nth,
{
    let len: usize = buffer.len();
    let mut count_0: usize = 0;
    let mut n: usize = 0;
    let mut i: usize = 0;
    while i < len
        invariant
            len == buffer@.len(),
            i <= len,
            count_0 == zero_run(buffer@, i as int),
            count_0 <= i,
            n == count_starts(buffer@, i as int),
            n <= nth,
        decreases len - i,
    {
        let byte = buffer[i];
        proof {
            if byte == 0 {
                assert(zero_run(buffer@, i + 1) == zero_run(buffer@, i as int) + 1);
            } else {
                assert(zero_run(buffer@, i + 1) == 0);
            }
        }
        if byte == 0 {
            count_0 = count_0 + 1;
        } else if byte == 1 && count_0 >= 2 {
            if n == nth {
                proof {
                    lemma_count_starts_monotone(buffer@, i + 1, len as int);
                }
                return Some(i - 2);
            }
            count_0 = 0;
            n = n + 1;
        } else {
            count_0 = 0;
        }
        i = i + 1;
    }
    None
}

/// The views of a sequence of byte vectors.
pub open spec fn views_of(s: Seq<Vec<u8>>) -> Seq<Seq<u8>> {
    s.map_values(|c: Vec<u8>| c@)
}

/// The concatenation of a sequence of byte chunks.
pub open spec fn concat_bytes(s: Seq<Seq<u8>>) -> Seq<u8>
    decreases s.len(),
{
    if s.len() == 0 {
        Seq::empty()
    } else {
        concat_bytes(s.drop_last()) + s.last()
    }
}

/// The byte stream from which the k-th unit was split off: that unit,
/// every later unit, and the bytes left in the buffer.
pub open spec fn stream_from(units: Seq<Seq<u8>>, rest: Seq<u8>, k: int) -> Seq<u8> {
    concat_bytes(units.skip(k)) + rest
}

/// Appending a unit that splits `tail` into `u + rest` leaves every earlier
/// suffix stream unchanged.
proof fn lemma_stream_extend(units: Seq<Seq<u8>>, u: Seq<u8>, rest: Seq<u8>, tail: Seq<u8>, k: int)
    requires
        0 <= k <= units.len(),
        u + rest == tail,
    ensures
        stream_from(units.push(u), rest, k) == stream_from(units, tail, k),
{
    assert(units.push(u).skip(k) =~= units.skip(k).push(u));
    assert(units.skip(k).push(u).drop_last() =~= units.skip(k));
    assert(units.skip(k).push(u).last() == u);
    assert(concat_bytes(units.skip(k).push(u)) == concat_bytes(units.skip(k)) + u);
    assert((concat_bytes(units.skip(k)) + u) + rest =~= concat_bytes(units.skip(k)) + (u + rest));
}

/// Produces all complete NAL units from the given buffer, leaving any
/// remaining data in the buffer: as long as the buffer holds at least two
/// start codes, the bytes up to the second one are split off as one unit.
/// The emitted units followed by the remaining buffer reassemble the
/// original buffer exactly; each unit holds exactly one start code and ends
/// exactly two bytes before the next start code of its suffix stream; and
/// at most one start code remains in the buffer.
pub fn nal_units(buffer: &mut Vec<u8>) -> (r: Vec<Vec<u8>>)
    ensures
        concat_bytes(views_of(r@)) + final(buffer)@ == old(buffer)@,
        count_starts(final(buffer)@, final(buffer)@.len() as int) <= 1,
        forall|k: int|
            0 <= k < r@.len() ==> count_starts(
                #[trigger] views_of(r@)[k],
                views_of(r@)[k].len() as int,
            ) == 1,
        forall|k: int|
            0 <= k < r@.len() ==> is_start(
                #[trigger] stream_from(views_of(r@), final(buffer)@, k),
                views_of(r@)[k].len() as int + 2,
            ) && count_starts(
                stream_from(views_of(r@), final(buffer)@, k),
                views_of(r@)[k].len() as int + 2,
            ) == 1,
{
    let ghost orig = buffer@;
    let mut out: Vec<Vec<u8>> = Vec::new();
    proof {
        assert(views_of(out@) =~= Seq::<Seq<u8>>::empty());
        assert(concat_bytes(views_of(out@)) + buffer@ =~= orig);
    }
    loop
        invariant
            orig == old(buffer)@,
            concat_bytes(views_of(out@)) + buffer@ == orig,
            forall|k: int|
                0 <= k < out@.len() ==> count_starts(
                    #[trigger] views_of(out@)[k],
                    views_of(out@)[k].len() as int,
                ) == 1,
            forall|k: int|
                0 <= k < out@.len() ==> is_start(
                    #[trigger] stream_from(views_of(out@), buffer@, k),
                    views_of(out@)[k].len() as int + 2,
                ) && count_starts(
                    stream_from(views_of(out@), buffer@, k),
                    views_of(out@)[k].len() as int + 2,
                ) == 1,
        decreases buffer@.len(),
    {
        let first = nth_nal_index(buffer, 0);
        let next = nth_nal_index(buffer, 1);
        match (first, next) {
            (Some(first_start), Some(second_start)) => {
                proof {
                    if second_start <= first_start {
                        lemma_count_starts_monotone(
                            buffer@,
                            second_start + 2,
                            first_start + 2,
                        );
                        assert(false);
                    }
                    // the cut sits on the two zero bytes of the second start
                    // code, so exactly one start code lies before it
                    lemma_zero_run_two(buffer@, second_start + 2);
                    assert(!is_start(buffer@, second_start as int));
                    assert(!is_start(buffer@, second_start + 1));
                    assert(count_starts(buffer@, second_start + 2) == count_starts(
                        buffer@,
                        second_start + 1,
                    ));
                    assert(count_starts(buffer@, second_start + 1) == count_starts(
                        buffer@,
                        second_start as int,
                    ));
                    lemma_count_starts_take(buffer@, second_start as int, second_start as int);
                    assert(count_starts(
                        buffer@.take(second_start as int),
                        second_start as int,
                    ) == 1);
                }
                let cut: usize = second_start;
                let ghost before = buffer@;
                let mut chunk: Vec<u8> = Vec::new();
                let mut rest: Vec<u8> = Vec::new();
                let mut j: usize = 0;
                let blen: usize = buffer.len();
                proof {
                    assert(chunk@ =~= buffer@.take(0));
                }
                while j < blen
                    invariant
                        blen == buffer@.len(),
                        1 <= cut < blen,
                        j <= blen,
                        chunk@ == buffer@.take(
                            if j < cut {
                                j as int
                            } else {
                                cut as int
                            },
                        ),
                        rest@ == if j <= cut {
                            Seq::<u8>::empty()
                        } else {
                            buffer@.subrange(cut as int, j as int)
                        },
                    decreases blen - j,
                {
                    if j < cut {
                        chunk.push(buffer[j]);
                    } else {
                        rest.push(buffer[j]);
                    }
                    proof {
                        if j + 1 <= cut {
                            assert(chunk@ =~= buffer@.take(j + 1));
                        } else {
                            assert(chunk@ =~= buffer@.take(cut as int));
                            assert(rest@ =~= buffer@.subrange(cut as int, j + 1));
                        }
                    }
                    j = j + 1;
                }
                proof {
                    assert(chunk@ + rest@ =~= buffer@);
                }
                let ghost prev_out = out@;
                let ghost chunk_view = chunk@;
                out.push(chunk);
                *buffer = rest;
                proof {
                    assert(views_of(out@) =~= views_of(prev_out).push(chunk_view));
                    assert(views_of(out@).drop_last() =~= views_of(prev_out));
                    assert(concat_bytes(views_of(out@)) =~= concat_bytes(views_of(prev_out))
                        + chunk_view);
                    assert(concat_bytes(views_of(out@)) + buffer@ =~= orig);
                    assert(chunk_view =~= before.take(cut as int));
                    assert(count_starts(chunk_view, cut as int) == 1);
                    assert(chunk_view + buffer@ =~= before);
                    assert forall|k: int|
                        0 <= k < out@.len() implies is_start(
                        #[trigger] stream_from(views_of(out@), buffer@, k),
                        views_of(out@)[k].len() as int + 2,
                    ) && count_starts(
                        stream_from(views_of(out@), buffer@, k),
                        views_of(out@)[k].len() as int + 2,
                    ) == 1 by {
                        if k < prev_out.len() {
                            lemma_stream_extend(
                                views_of(prev_out),
                                chunk_view,
                                buffer@,
                                before,
                                k,
                            );
                            assert(views_of(out@)[k] == views_of(prev_out)[k]);
                            assert(stream_from(views_of(out@), buffer@, k) == stream_from(
                                views_of(prev_out),
                                before,
                                k,
                            ));
                        } else {
                            // the freshly split unit: its suffix stream is the
                            // buffer it was split from, whose second start
                            // code sits two bytes past the cut
                            assert(views_of(out@)[k] == chunk_view);
                            assert(views_of(out@).skip(k) =~= seq![chunk_view]);
                            assert(seq![chunk_view].drop_last() =~= Seq::<Seq<u8>>::empty());
                            assert(concat_bytes(Seq::<Seq<u8>>::empty()) =~= Seq::<u8>::empty());
                            assert(seq![chunk_view].last() == chunk_view);
                            assert(concat_bytes(seq![chunk_view]) == Seq::<u8>::empty()
                                + chunk_view);
                            assert(Seq::<u8>::empty() + chunk_view =~= chunk_view);
                            assert(stream_from(views_of(out@), buffer@, k) == chunk_view
                                + buffer@);
                            assert(chunk_view.len() == cut);
                            assert(is_start(before, cut + 2));
                            assert(count_starts(before, cut + 2) == 1);
                        }
                    }
                }
            },
            _ => {
                proof {
                    if count_starts(buffer@, buffer@.len() as int) > 1 {
                        assert(!(first is None));
                        assert(!(next is None));
                        assert(false);
                    }
                }
                return out;
            },
        }
    }
}

} // verus!
