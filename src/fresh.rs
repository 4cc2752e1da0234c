use vstd::prelude::*;

verus! {

/// The length of the longest value in `h`.
pub open spec fn max_len(h: Seq<Seq<u8>>) -> nat
    decreases h.len(),
{
    if h.len() == 0 {
        0
    } else {
        let m = max_len(h.drop_last());
        if h.last().len() > m {
            h.last().len()
        } else {
            m
        }
    }
}

/// `s` itself when it is non-empty and not in `h`; otherwise `s` extended
/// by the fewest zero bytes that make it so.
pub open spec fn unused_value(h: Seq<Seq<u8>>, s: Seq<u8>) -> Seq<u8>
    decreases max_len(h) + 1 - s.len(),
{
    if s.len() > 0 && !h.contains(s) {
        s
    } else if s.len() > max_len(h) {
        s
    } else {
        unused_value(h, s.push(0u8))
    }
}

pub proof fn lemma_max_len_bounds(h: Seq<Seq<u8>>)
    ensures
        forall|i: int| 0 <= i < h.len() ==> #[trigger] h[i].len() <= max_len(h),
    decreases h.len(),
{
    if h.len() > 0 {
        lemma_max_len_bounds(h.drop_last());
        assert forall|i: int| 0 <= i < h.len() implies #[trigger] h[i].len() <= max_len(h) by {
            if i < h.len() - 1 {
                assert(h.drop_last()[i] == h[i]);
            }
        }
    }
}

/// What `unused_value` gives is non-empty, not in `h`, and begins with `s`.
pub proof fn lemma_unused_value(h: Seq<Seq<u8>>, s: Seq<u8>)
    ensures
        unused_value(h, s).len() > 0,
        !h.contains(unused_value(h, s)),
        unused_value(h, s).len() >= s.len(),
        unused_value(h, s).subrange(0, s.len() as int) == s,
        s.len() > 0 && !h.contains(s) ==> unused_value(h, s) == s,
    decreases max_len(h) + 1 - s.len(),
{
    lemma_max_len_bounds(h);
    if s.len() > 0 && !h.contains(s) {
        assert(s.subrange(0, s.len() as int) =~= s);
    } else if s.len() > max_len(h) {
        assert(s.subrange(0, s.len() as int) =~= s);
        if h.contains(s) {
            let i = choose|i: int| 0 <= i < h.len() && h[i] == s;
            assert(h[i].len() <= max_len(h));
        }
    } else {
        let t = s.push(0u8);
        lemma_unused_value(h, t);
        let u = unused_value(h, t);
        assert(u.subrange(0, s.len() as int) =~= u.subrange(0, t.len() as int).subrange(0, s.len() as int));
        assert(t.subrange(0, s.len() as int) =~= s);
    }
}

/// Whether `h` holds `s`.
pub fn holds_bytes(h: &Vec<Vec<u8>>, s: &Vec<u8>) -> (r: bool)
    ensures
        r == h@.map_values(|v: Vec<u8>| v@).contains(s@),
{
    let ghost hv = h@.map_values(|v: Vec<u8>| v@);
    let mut i: usize = 0;
    while i < h.len()
        invariant
            hv == h@.map_values(|v: Vec<u8>| v@),
            i <= h@.len(),
            forall|j: int| 0 <= j < i ==> hv[j] != s@,
        decreases h@.len() - i,
    {
        if crate::group::bytes_equal(&h[i], s) {
            assert(hv[i as int] == s@);
            return true;
        }
        i = i + 1;
    }
    false
}

/// A value not among `h`, built from the drawn value `s`: `s` itself when it
/// is non-empty and unused, else `s` extended with zero bytes until it is.
pub fn make_unused(h: &Vec<Vec<u8>>, s: Vec<u8>) -> (r: Vec<u8>)
    ensures
        r@ == unused_value(h@.map_values(|v: Vec<u8>| v@), s@),
        r@.len() > 0,
        !h@.map_values(|v: Vec<u8>| v@).contains(r@),
{
    let ghost hv = h@.map_values(|v: Vec<u8>| v@);
    let ghost target = unused_value(hv, s@);
    proof {
        lemma_unused_value(hv, s@);
        lemma_max_len_bounds(hv);
    }
    let mut c = s;
    while c.len() == 0 || holds_bytes(h, &c)
        invariant
            hv == h@.map_values(|v: Vec<u8>| v@),
            unused_value(hv, c@) == target,
            forall|i: int| 0 <= i < hv.len() ==> #[trigger] hv[i].len() <= max_len(hv),
        decreases max_len(hv) + 1 - c@.len(),
    {
        proof {
            if c@.len() > 0 {
                let i = choose|i: int| 0 <= i < hv.len() && hv[i] == c@;
                assert(hv[i].len() <= max_len(hv));
            }
        }
        assert(c@.len() <= max_len(hv));
        c.push(0u8);
    }
    c
}

} // verus!
