//! Ranked "did you mean" suggestions: each option is scored by the
//! normalized edit distance between the input and the option's
//! overlapping prefix, options scoring at least three tenths are kept,
//! best first, ties in lexicographic order.
use vstd::prelude::*;

use vstd::relations::{sorted_by, total_ordering};
use vstd::seq_lib::lemma_sorted_unique;

verus! {

/// What `strsim::damerau_levenshtein` returns for the given character
/// sequences; the result depends on the characters alone.
pub uninterp spec fn dl_distance(a: Seq<char>, b: Seq<char>) -> usize;

/// Relies on `strsim::damerau_levenshtein`: the Damerau-Levenshtein
/// edit distance between the two strings, counted over characters, a
/// function of the two strings alone.
#[verifier::external_body]
fn damerau_levenshtein(a: &str, b: &str) -> (r: usize)
    ensures
        r == dl_distance(a@, b@),
{
    strsim::damerau_levenshtein(a, b)
}

/// The prefix of an option compared against the input: at most one
/// character longer than the input.
pub open spec fn trunc_opt(g: Seq<char>, o: Seq<char>) -> Seq<char> {
    if o.len() > g.len() {
        o.take(g.len() as int + 1)
    } else {
        o
    }
}

/// The larger of the input's and the truncated option's lengths.
pub open spec fn sim_len(g: Seq<char>, o: Seq<char>) -> int {
    let t = trunc_opt(g, o);
    if g.len() >= t.len() {
        g.len() as int
    } else {
        t.len() as int
    }
}

/// Whether the option scores at least three tenths: its normalized
/// similarity `1 - d/len` is at least `0.3`, where `d` is the edit
/// distance to the truncated option (two empty strings score one).
pub open spec fn sim_keep(g: Seq<char>, o: Seq<char>) -> bool {
    let ln = sim_len(g, o);
    let d = dl_distance(g, trunc_opt(g, o)) as int;
    ln == 0 || (d <= ln && 10 * (ln - d) >= 3 * ln)
}

/// The similarity score as a fraction: numerator and denominator.
pub open spec fn sim_num(g: Seq<char>, o: Seq<char>) -> int {
    if sim_len(g, o) == 0 {
        1
    } else {
        sim_len(g, o) - dl_distance(g, trunc_opt(g, o))
    }
}

pub open spec fn sim_den(g: Seq<char>, o: Seq<char>) -> int {
    if sim_len(g, o) == 0 {
        1
    } else {
        sim_len(g, o)
    }
}

/// Lexicographic order on character sequences, by Unicode scalar.
pub open spec fn lex_le(a: Seq<char>, b: Seq<char>) -> bool
    decreases a.len(),
{
    if a.len() == 0 {
        true
    } else if b.len() == 0 {
        false
    } else if (a[0] as u32) < (b[0] as u32) {
        true
    } else if (a[0] as u32) > (b[0] as u32) {
        false
    } else {
        lex_le(a.drop_first(), b.drop_first())
    }
}

/// The suggestion order: higher similarity first, ties in
/// lexicographic order.
pub open spec fn dym_le(g: Seq<char>, a: Seq<char>, b: Seq<char>) -> bool {
    let cross_a = sim_num(g, a) * sim_den(g, b);
    let cross_b = sim_num(g, b) * sim_den(g, a);
    cross_a > cross_b || (cross_a == cross_b && lex_le(a, b))
}

/// The suggestion order as a relation on sequences.
pub open spec fn dym_leq(g: Seq<char>) -> spec_fn(Seq<char>, Seq<char>) -> bool {
    |a: Seq<char>, b: Seq<char>| dym_le(g, a, b)
}

/// The ranked suggestions: the kept options, sorted best first.
pub open spec fn dym_list(g: Seq<char>, options: Seq<Seq<char>>) -> Seq<Seq<char>> {
    options.filter(|o: Seq<char>| sim_keep(g, o)).sort_by(dym_leq(g))
}

pub proof fn lemma_lex_le_total(a: Seq<char>, b: Seq<char>)
    ensures
        lex_le(a, b) || lex_le(b, a),
        lex_le(a, b) && lex_le(b, a) ==> a == b,
        lex_le(a, a),
    decreases a.len(),
{
    if a.len() > 0 && b.len() > 0 && a[0] as u32 == b[0] as u32 {
        lemma_lex_le_total(a.drop_first(), b.drop_first());
        assert(a[0] == b[0]) by {
            vstd::utf8::char_u32_cast(a[0], a[0] as u32);
            vstd::utf8::char_u32_cast(b[0], b[0] as u32);
        }
        if lex_le(a, b) && lex_le(b, a) {
            assert(a.drop_first() == b.drop_first());
            assert(a =~= b) by {
                assert(forall|i: int|
                    1 <= i < a.len() ==> a[i] == a.drop_first()[i - 1] && b[i]
                        == b.drop_first()[i - 1]);
            }
        }
    } else if a.len() > 0 && a.len() == a.len() {
        if b.len() > 0 {
        } else {
        }
    }
    if a.len() > 0 {
        lemma_lex_le_total(a.drop_first(), a.drop_first());
    }
}

pub proof fn lemma_lex_le_trans(a: Seq<char>, b: Seq<char>, c: Seq<char>)
    requires
        lex_le(a, b),
        lex_le(b, c),
    ensures
        lex_le(a, c),
    decreases a.len(),
{
    if a.len() > 0 && b.len() > 0 && c.len() > 0 {
        if a[0] as u32 == b[0] as u32 && b[0] as u32 == c[0] as u32 {
            lemma_lex_le_trans(a.drop_first(), b.drop_first(), c.drop_first());
        }
    }
}

/// The suggestion order is a total ordering.
pub proof fn lemma_dym_le_total(g: Seq<char>)
    ensures
        total_ordering(dym_leq(g)),
{
    let r = dym_leq(g);
    assert forall|x: Seq<char>| #[trigger] r(x, x) by {
        lemma_lex_le_total(x, x);
    }
    assert forall|x: Seq<char>, y: Seq<char>| #[trigger] r(x, y) && #[trigger] r(y, x) implies x
        == y by {
        lemma_lex_le_total(x, y);
    }
    assert forall|x: Seq<char>, y: Seq<char>| #[trigger] r(x, y) || #[trigger] r(y, x) by {
        let cx = sim_num(g, x) * sim_den(g, y);
        let cy = sim_num(g, y) * sim_den(g, x);
        if cx == cy {
            lemma_lex_le_total(x, y);
        }
    }
    assert forall|x: Seq<char>, y: Seq<char>, z: Seq<char>|
        #[trigger] r(x, y) && #[trigger] r(y, z) implies r(x, z) by {
        let nx = sim_num(g, x);
        let dx = sim_den(g, x);
        let ny = sim_num(g, y);
        let dy = sim_den(g, y);
        let nz = sim_num(g, z);
        let dz = sim_den(g, z);
        assert(dx > 0 && dy > 0 && dz > 0);
        if nx * dy > ny * dx && ny * dz > nz * dy {
            assert(nx * dz > nz * dx) by (nonlinear_arith)
                requires
                    nx * dy > ny * dx,
                    ny * dz > nz * dy,
                    dx > 0,
                    dy > 0,
                    dz > 0,
            {
            }
        } else if nx * dy > ny * dx && ny * dz == nz * dy {
            assert(nx * dz > nz * dx) by (nonlinear_arith)
                requires
                    nx * dy > ny * dx,
                    ny * dz == nz * dy,
                    dx > 0,
                    dy > 0,
                    dz > 0,
            {
            }
        } else if nx * dy == ny * dx && ny * dz > nz * dy {
            assert(nx * dz > nz * dx) by (nonlinear_arith)
                requires
                    nx * dy == ny * dx,
                    ny * dz > nz * dy,
                    dx > 0,
                    dy > 0,
                    dz > 0,
            {
            }
        } else {
            assert(nx * dz == nz * dx) by (nonlinear_arith)
                requires
                    nx * dy == ny * dx,
                    ny * dz == nz * dy,
                    dx > 0,
                    dy > 0,
                    dz > 0,
            {
            }
            lemma_lex_le_trans(x, y, z);
        }
    }
}

/// Inserting into a sequence inserts into its multiset.
pub proof fn lemma_insert_multiset<A>(s: Seq<A>, i: int, x: A)
    requires
        0 <= i <= s.len(),
    ensures
        s.insert(i, x).to_multiset() =~= s.to_multiset().insert(x),
{
    broadcast use vstd::seq_lib::group_to_multiset_ensures;
    broadcast use vstd::multiset::group_multiset_axioms;

    let t = s.insert(i, x);
    assert(t.remove(i) =~= s);
    assert(t[i] == x);
    assert(t.remove(i).to_multiset() =~= t.to_multiset().remove(t[i]));
    assert(t.contains(x)) by {
        assert(t[i] == x);
    }
    assert(t.to_multiset().count(x) > 0);
    assert(t.to_multiset() =~= s.to_multiset().insert(x)) by {
        assert(forall|y: A|
            s.to_multiset().insert(x).count(y) == t.to_multiset().count(y));
    }
}

/// The executable lexicographic comparison.
fn lex_le_exec(a: &str, b: &str) -> (r: bool)
    ensures
        r == lex_le(a@, b@),
{
    let na = a.unicode_len();
    let nb = b.unicode_len();
    proof {
        assert(a@.skip(0) =~= a@);
        assert(b@.skip(0) =~= b@);
    }
    let mut i: usize = 0;
    loop
        invariant
            i <= na,
            i <= nb,
            na == a@.len(),
            nb == b@.len(),
            lex_le(a@, b@) == lex_le(a@.skip(i as int), b@.skip(i as int)),
        ensures
            ({
                let ar = a@.skip(i as int);
                let br = b@.skip(i as int);
                lex_le(a@, b@) == lex_le(ar, br) && (ar.len() == 0 || br.len() == 0 || ar[0]
                    as u32 != br[0] as u32)
            }),
        decreases na - i,
    {
        if i >= na || i >= nb {
            break ;
        }
        let ca = a.get_char(i) as u32;
        let cb = b.get_char(i) as u32;
        if ca != cb {
            break ;
        }
        proof {
            assert(a@.skip(i as int)[0] == a@[i as int]);
            assert(b@.skip(i as int)[0] == b@[i as int]);
            assert(a@.skip(i as int).drop_first() =~= a@.skip(i + 1));
            assert(b@.skip(i as int).drop_first() =~= b@.skip(i + 1));
        }
        i = i + 1;
    }
    let ghost ar = a@.skip(i as int);
    let ghost br = b@.skip(i as int);
    if i >= na {
        assert(ar.len() == 0);
        true
    } else if i >= nb {
        assert(br.len() == 0 && ar.len() > 0);
        false
    } else {
        proof {
            assert(ar[0] == a@[i as int]);
            assert(br[0] == b@[i as int]);
        }
        (a.get_char(i) as u32) < (b.get_char(i) as u32)
    }
}

/// Rank the options by their similarity to the given input: those
/// scoring at least three tenths, best first, ties in lexicographic
/// order.
#[verifier::loop_isolation(false)]
#[verifier::rlimit(100)]
pub fn did_you_mean(given: &str, options: &Vec<String>) -> (r: Vec<String>)
    ensures
        r.deep_view() == dym_list(given@, options.deep_view()),
{
    let ghost g = given@;
    let ghost keepf = |o: Seq<char>| sim_keep(g, o);
    let ghost leq = dym_leq(g);
    let gl = given.unicode_len();

    // Score each option, keeping those above the threshold.
    let mut kept: Vec<String> = Vec::new();
    let mut nums: Vec<u128> = Vec::new();
    let mut dens: Vec<u128> = Vec::new();
    let mut i: usize = 0;
    proof {
        reveal(Seq::filter);
        assert(options.deep_view().take(0) =~= Seq::<Seq<char>>::empty());
        assert(options.deep_view().take(0).filter(keepf) =~= Seq::<Seq<char>>::empty());
    }
    while i < options.len()
        invariant
            i <= options@.len(),
            gl == g.len(),
            kept.deep_view() == options.deep_view().take(i as int).filter(keepf),
            nums@.len() == kept@.len(),
            dens@.len() == kept@.len(),
            forall|t: int|
                0 <= t < kept@.len() ==> (#[trigger] nums@[t]) as int == sim_num(
                    g,
                    kept.deep_view()[t],
                ),
            forall|t: int|
                0 <= t < kept@.len() ==> (#[trigger] dens@[t]) as int == sim_den(
                    g,
                    kept.deep_view()[t],
                ),
            forall|t: int| 0 <= t < kept@.len() ==> (#[trigger] nums@[t]) < 0x10000000000000000u128,
            forall|t: int| 0 <= t < kept@.len() ==> (#[trigger] dens@[t]) < 0x10000000000000000u128,
        decreases options@.len() - i,
    {
        let o = &options[i];
        assert(o@ == options.deep_view()[i as int]);
        let ol = o.as_str().unicode_len();
        let tl = if ol > gl {
            gl + 1
        } else {
            ol
        };
        let t = o.as_str().substring_char(0, tl);
        proof {
            assert(t@ =~= trunc_opt(g, o@));
        }
        let d = damerau_levenshtein(given, t);
        let ln = if gl >= tl {
            gl
        } else {
            tl
        };
        assert(ln as int == sim_len(g, o@));
        let keep = ln == 0 || (d <= ln && 10 * ((ln - d) as u128) >= 3 * (ln as u128));
        assert(keep == sim_keep(g, o@));
        let ghost prev = kept.deep_view();
        if keep {
            kept.push(o.clone());
            if ln == 0 {
                nums.push(1);
                dens.push(1);
            } else {
                nums.push((ln - d) as u128);
                dens.push(ln as u128);
            }
            proof {
                assert(kept.deep_view() =~= prev.push(o@));
                assert(kept.deep_view()[prev.len() as int] == o@);
                assert(nums@[prev.len() as int] as int == sim_num(g, o@));
                assert(dens@[prev.len() as int] as int == sim_den(g, o@));
                assert(forall|t: int|
                    0 <= t < prev.len() ==> #[trigger] kept.deep_view()[t] == prev[t]);
            }
        }
        proof {
            reveal(Seq::filter);
            let pfx = options.deep_view().take(i as int);
            assert(options.deep_view().take(i + 1).drop_last() =~= pfx);
            assert(options.deep_view().take(i + 1).last() == options.deep_view()[i as int]);
            assert(options.deep_view()[i as int] == o@);
            assert(keepf(o@) == sim_keep(g, o@));
            assert(options.deep_view().take(i + 1).filter(keepf) == (if keepf(
                options.deep_view().take(i + 1).last(),
            ) {
                options.deep_view().take(i + 1).drop_last().filter(keepf).push(
                    options.deep_view().take(i + 1).last(),
                )
            } else {
                options.deep_view().take(i + 1).drop_last().filter(keepf)
            }));
            assert(options.deep_view().take(i + 1).drop_last().filter(keepf) == pfx.filter(
                keepf,
            ));
            if keep {
                assert(options.deep_view().take(i + 1).filter(keepf) =~= pfx.filter(keepf).push(
                    o@,
                ));
            } else {
                assert(options.deep_view().take(i + 1).filter(keepf) =~= pfx.filter(keepf));
            }
        }
        i = i + 1;
    }
    proof {
        assert(options.deep_view().take(options@.len() as int) =~= options.deep_view());
    }
    let ghost keptv = kept.deep_view();

    // Insertion sort by the suggestion order.
    let mut out: Vec<String> = Vec::new();
    let mut onums: Vec<u128> = Vec::new();
    let mut odens: Vec<u128> = Vec::new();
    let mut k: usize = 0;
    proof {
        lemma_dym_le_total(g);
        assert(keptv.take(0) =~= Seq::<Seq<char>>::empty());
        assert(keptv.take(0).to_multiset() =~= out.deep_view().to_multiset()) by {
            broadcast use vstd::seq_lib::group_to_multiset_ensures;

        }
    }
    while k < kept.len()
        invariant
            k <= kept@.len(),
            keptv == kept.deep_view(),
            nums@.len() == kept@.len(),
            dens@.len() == kept@.len(),
            forall|t: int|
                0 <= t < kept@.len() ==> (#[trigger] nums@[t]) as int == sim_num(g, keptv[t]),
            forall|t: int|
                0 <= t < kept@.len() ==> (#[trigger] dens@[t]) as int == sim_den(g, keptv[t]),
            out@.len() == k,
            onums@.len() == k,
            odens@.len() == k,
            forall|t: int| 0 <= t < kept@.len() ==> (#[trigger] nums@[t]) < 0x10000000000000000u128,
            forall|t: int| 0 <= t < kept@.len() ==> (#[trigger] dens@[t]) < 0x10000000000000000u128,
            forall|t: int|
                0 <= t < out@.len() ==> (#[trigger] onums@[t]) as int == sim_num(
                    g,
                    out.deep_view()[t],
                ),
            forall|t: int|
                0 <= t < out@.len() ==> (#[trigger] odens@[t]) as int == sim_den(
                    g,
                    out.deep_view()[t],
                ),
            forall|t: int| 0 <= t < out@.len() ==> (#[trigger] onums@[t]) < 0x10000000000000000u128,
            forall|t: int| 0 <= t < out@.len() ==> (#[trigger] odens@[t]) < 0x10000000000000000u128,
            sorted_by(out.deep_view(), leq),
            out.deep_view().to_multiset() == keptv.take(k as int).to_multiset(),
        decreases kept@.len() - k,
    {
        let x = kept[k].clone();
        let xn = nums[k];
        let xd = dens[k];
        assert(x@ == keptv[k as int]);
        assert(xn as int == sim_num(g, x@) && xd as int == sim_den(g, x@));
        assert(xn < 0x10000000000000000u128 && xd < 0x10000000000000000u128);

        // Find the insertion point: past everything ordered before x.
        let mut pos: usize = 0;
        while pos < out.len()
            invariant
                pos <= out@.len(),
                forall|t: int| 0 <= t < pos ==> leq(out.deep_view()[t], x@),
            decreases out@.len() - pos,
        {
            let cn = onums[pos];
            let cd = odens[pos];
            proof {
                assert(cn * xd <= u128::MAX) by (nonlinear_arith)
                    requires
                        cn < 0x10000000000000000u128,
                        xd < 0x10000000000000000u128,
                {
                }
                assert(xn * cd <= u128::MAX) by (nonlinear_arith)
                    requires
                        xn < 0x10000000000000000u128,
                        cd < 0x10000000000000000u128,
                {
                }
            }
            let cur_first = cn * xd > xn * cd || (cn * xd == xn * cd && lex_le_exec(
                out[pos].as_str(),
                x.as_str(),
            ));
            proof {
                assert(out.deep_view()[pos as int] == out@[pos as int]@);
                assert(cn as int == sim_num(g, out.deep_view()[pos as int]));
                assert(cd as int == sim_den(g, out.deep_view()[pos as int]));
                assert(xn as int == sim_num(g, x@));
                assert(xd as int == sim_den(g, x@));
                assert(cur_first == dym_le(g, out.deep_view()[pos as int], x@));
                assert(leq(out.deep_view()[pos as int], x@) == dym_le(
                    g,
                    out.deep_view()[pos as int],
                    x@,
                ));
            }
            if !cur_first {
                break ;
            }
            pos = pos + 1;
        }
        proof {
            lemma_dym_le_total(g);
            if pos < out@.len() {
                if !leq(out.deep_view()[pos as int], x@) {
                    assert(leq(x@, out.deep_view()[pos as int]));
                }
            }
        }
        let ghost outv = out.deep_view();
        out.insert(pos, x);
        onums.insert(pos, xn);
        odens.insert(pos, xd);
        proof {
            assert(out.deep_view() =~= outv.insert(pos as int, keptv[k as int]));
            lemma_insert_multiset(outv, pos as int, keptv[k as int]);
            broadcast use vstd::seq_lib::group_to_multiset_ensures;

            assert(keptv.take(k + 1) =~= keptv.take(k as int).push(keptv[k as int]));
            assert(keptv.take(k + 1).to_multiset() =~= keptv.take(k as int).to_multiset().insert(
                keptv[k as int],
            ));
            // Sortedness after the insertion.
            assert forall|a: int, b: int|
                0 <= a < b < out.deep_view().len() implies leq(
                out.deep_view()[a],
                out.deep_view()[b],
            ) by {
                let nv = out.deep_view();
                let p = pos as int;
                if b < p {
                    assert(nv[a] == outv[a] && nv[b] == outv[b]);
                } else if a > p {
                    assert(nv[a] == outv[a - 1] && nv[b] == outv[b - 1]);
                } else if a == p {
                    assert(nv[a] == keptv[k as int]);
                    assert(nv[b] == outv[b - 1]);
                    assert(b - 1 >= p);
                    if p < outv.len() {
                        assert(!leq(outv[p], keptv[k as int]));
                        assert(leq(keptv[k as int], outv[p]));
                        if b - 1 > p {
                            assert(leq(outv[p], outv[b - 1]));
                        }
                    }
                } else if b == p {
                    assert(nv[a] == outv[a]);
                    assert(leq(outv[a], keptv[k as int]));
                } else {
                    assert(a < p && b > p);
                    assert(nv[a] == outv[a] && nv[b] == outv[b - 1]);
                    assert(leq(outv[a], keptv[k as int]));
                    assert(nv[b] == outv[b - 1] && b - 1 >= p);
                    if p < outv.len() {
                        assert(leq(keptv[k as int], outv[p]));
                        if b - 1 > p {
                            assert(leq(outv[p], outv[b - 1]));
                        }
                    }
                }
            }
        }
        k = k + 1;
    }
    proof {
        assert(keptv.take(keptv.len() as int) =~= keptv);
        lemma_dym_le_total(g);
        options.deep_view().filter(keepf).lemma_sort_by_ensures(leq);
        assert(dym_list(g, options.deep_view()) == keptv.sort_by(leq));
        lemma_sorted_unique(out.deep_view(), keptv.sort_by(leq), leq);
        assert(out.deep_view() =~= dym_list(g, options.deep_view()));
    }
    out
}

} // verus!
