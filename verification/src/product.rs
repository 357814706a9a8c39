//! Cartesian products over shorthand alternatives. A definition side
//! multiplies modifier groups and keys; a command side multiplies its
//! segments and joins each combination into one string with no
//! separator.

use vstd::prelude::*;

use crate::token::Modifier;

verus! {

/// Each combination extended by each alternative of `xs`, in order.
pub open spec fn extend_one<A>(c: Seq<A>, xs: Seq<A>) -> Seq<Seq<A>> {
    xs.map_values(|x: A| c.push(x))
}

/// Every combination of `combos` extended by every alternative of
/// `xs`: combinations stay outermost, alternatives innermost.
pub open spec fn append_each<A>(combos: Seq<Seq<A>>, xs: Seq<A>) -> Seq<Seq<A>>
    decreases combos.len(),
{
    if combos.len() == 0 {
        Seq::empty()
    } else {
        extend_one(combos[0], xs) + append_each(combos.drop_first(), xs)
    }
}

/// Product of a sequence of alternative lists, one choice from each
/// list, earlier lists varying slowest. No lists give one empty
/// combination.
pub open spec fn product_from<A>(ls: Seq<Seq<A>>) -> Seq<Seq<A>>
    decreases ls.len(),
{
    if ls.len() == 0 {
        seq![Seq::<A>::empty()]
    } else {
        append_each(product_from(ls.drop_last()), ls.last())
    }
}

/// The cartesian product as the shorthand compiler uses it: with no
/// alternative lists at all there are no combinations.
pub open spec fn multi_product<A>(ls: Seq<Seq<A>>) -> Seq<Seq<A>> {
    if ls.len() == 0 {
        Seq::empty()
    } else {
        product_from(ls)
    }
}

/// Each accumulated text extended by each alternative of `xs`.
pub open spec fn extend_join(c: Seq<char>, xs: Seq<Seq<char>>) -> Seq<Seq<char>> {
    xs.map_values(|x: Seq<char>| c + x)
}

/// Every accumulated text extended by every alternative of `xs`.
pub open spec fn append_join(tails: Seq<Seq<char>>, xs: Seq<Seq<char>>) -> Seq<Seq<char>>
    decreases tails.len(),
{
    if tails.len() == 0 {
        Seq::empty()
    } else {
        extend_join(tails[0], xs) + append_join(tails.drop_first(), xs)
    }
}

/// Product of command segments joined with no separator.
pub open spec fn joined_from(segs: Seq<Seq<Seq<char>>>) -> Seq<Seq<char>>
    decreases segs.len(),
{
    if segs.len() == 0 {
        seq![Seq::<char>::empty()]
    } else {
        append_join(joined_from(segs.drop_last()), segs.last())
    }
}

/// The fully enumerated command strings of a command expression; a
/// command with no segments at all has no variants.
pub open spec fn command_variants(segs: Seq<Seq<Seq<char>>>) -> Seq<Seq<char>> {
    if segs.len() == 0 {
        Seq::empty()
    } else {
        joined_from(segs)
    }
}

/// Nested view of modifier groups.
pub open spec fn mods_view(v: Vec<Vec<Modifier>>) -> Seq<Seq<Modifier>> {
    v@.map_values(|g: Vec<Modifier>| g@)
}

/// Nested view of a list of strings.
pub open spec fn strs_view(v: Vec<String>) -> Seq<Seq<char>> {
    v@.map_values(|s: String| s@)
}

/// Nested view of command segments.
pub open spec fn segs_view(v: Vec<Vec<String>>) -> Seq<Seq<Seq<char>>> {
    v@.map_values(|g: Vec<String>| strs_view(g))
}

/// A copy of a modifier list.
pub fn copy_mods(v: &Vec<Modifier>) -> (r: Vec<Modifier>)
    ensures
        r@ == v@,
{
    let mut r: Vec<Modifier> = Vec::new();
    let mut i: usize = 0;
    while i < v.len()
        invariant
            i <= v@.len(),
            r@ == v@.take(i as int),
        decreases v@.len() - i,
    {
        r.push(v[i]);
        proof {
            assert(r@ =~= v@.take(i + 1));
        }
        i = i + 1;
    }
    proof {
        assert(r@ =~= v@);
    }
    r
}

fn extend_one_mods(c: &Vec<Modifier>, xs: &Vec<Modifier>) -> (r: Vec<Vec<Modifier>>)
    ensures
        mods_view(r) == extend_one(c@, xs@),
{
    let mut r: Vec<Vec<Modifier>> = Vec::new();
    let mut j: usize = 0;
    while j < xs.len()
        invariant
            j <= xs@.len(),
            r@.len() == j,
            forall|k: int| 0 <= k < j ==> #[trigger] r@[k]@ == c@.push(xs@[k]),
        decreases xs@.len() - j,
    {
        let mut one = copy_mods(c);
        one.push(xs[j]);
        r.push(one);
        j = j + 1;
    }
    proof {
        assert(mods_view(r) =~= extend_one(c@, xs@));
    }
    r
}

fn append_each_mods(combos: &Vec<Vec<Modifier>>, xs: &Vec<Modifier>) -> (r: Vec<Vec<Modifier>>)
    ensures
        mods_view(r) == append_each(mods_view(*combos), xs@),
{
    let mut r: Vec<Vec<Modifier>> = Vec::new();
    let mut i: usize = 0;
    proof {
        assert(mods_view(*combos).skip(0) =~= mods_view(*combos));
        assert(mods_view(r) =~= Seq::<Seq<Modifier>>::empty());
    }
    while i < combos.len()
        invariant
            i <= combos@.len(),
            append_each(mods_view(*combos), xs@) == mods_view(r) + append_each(
                mods_view(*combos).skip(i as int),
                xs@,
            ),
        decreases combos@.len() - i,
    {
        let ghost pre_r = mods_view(r);
        let ghost rest = mods_view(*combos).skip(i as int);
        let mut block = extend_one_mods(&combos[i], xs);
        let ghost bv = mods_view(block);
        r.append(&mut block);
        proof {
            assert(rest[0] == mods_view(*combos)[i as int]);
            assert(rest.drop_first() =~= mods_view(*combos).skip(i + 1));
            assert(mods_view(r) =~= pre_r + bv);
            assert(pre_r + (bv + append_each(mods_view(*combos).skip(i + 1), xs@)) =~= (pre_r + bv)
                + append_each(mods_view(*combos).skip(i + 1), xs@));
        }
        i = i + 1;
    }
    proof {
        assert(mods_view(*combos).skip(combos@.len() as int) =~= Seq::<Seq<Modifier>>::empty());
        assert(mods_view(r) + Seq::<Seq<Modifier>>::empty() =~= mods_view(r));
    }
    r
}

/// The cartesian product of the modifier groups: one modifier chosen
/// from each group, earlier groups varying slowest.
pub fn product_modifiers(groups: &Vec<Vec<Modifier>>) -> (r: Vec<Vec<Modifier>>)
    ensures
        mods_view(r) == multi_product(mods_view(*groups)),
{
    if groups.len() == 0 {
        let r: Vec<Vec<Modifier>> = Vec::new();
        proof {
            assert(mods_view(r) =~= Seq::<Seq<Modifier>>::empty());
        }
        return r;
    }
    let mut acc: Vec<Vec<Modifier>> = Vec::new();
    acc.push(Vec::new());
    proof {
        assert(mods_view(*groups).take(0) =~= Seq::<Seq<Modifier>>::empty());
        assert(mods_view(acc) =~= product_from(mods_view(*groups).take(0)));
    }
    let mut i: usize = 0;
    while i < groups.len()
        invariant
            i <= groups@.len(),
            mods_view(acc) == product_from(mods_view(*groups).take(i as int)),
        decreases groups@.len() - i,
    {
        let next = append_each_mods(&acc, &groups[i]);
        acc = next;
        proof {
            let gv = mods_view(*groups);
            assert(gv.take(i + 1).drop_last() =~= gv.take(i as int));
            assert(gv.take(i + 1).last() == gv[i as int]);
        }
        i = i + 1;
    }
    proof {
        assert(mods_view(*groups).take(groups@.len() as int) =~= mods_view(*groups));
    }
    acc
}

fn extend_join_strs(c: &String, xs: &Vec<String>) -> (r: Vec<String>)
    ensures
        strs_view(r) == extend_join(c@, strs_view(*xs)),
{
    let mut r: Vec<String> = Vec::new();
    let mut j: usize = 0;
    while j < xs.len()
        invariant
            j <= xs@.len(),
            r@.len() == j,
            forall|k: int| 0 <= k < j ==> #[trigger] r@[k]@ == c@ + xs@[k]@,
        decreases xs@.len() - j,
    {
        let mut one = c.clone();
        one.append(xs[j].as_str());
        r.push(one);
        j = j + 1;
    }
    proof {
        assert(strs_view(r) =~= extend_join(c@, strs_view(*xs)));
    }
    r
}

fn append_join_strs(tails: &Vec<String>, xs: &Vec<String>) -> (r: Vec<String>)
    ensures
        strs_view(r) == append_join(strs_view(*tails), strs_view(*xs)),
{
    let mut r: Vec<String> = Vec::new();
    let mut i: usize = 0;
    proof {
        assert(strs_view(*tails).skip(0) =~= strs_view(*tails));
        assert(strs_view(r) =~= Seq::<Seq<char>>::empty());
    }
    while i < tails.len()
        invariant
            i <= tails@.len(),
            append_join(strs_view(*tails), strs_view(*xs)) == strs_view(r) + append_join(
                strs_view(*tails).skip(i as int),
                strs_view(*xs),
            ),
        decreases tails@.len() - i,
    {
        let ghost pre_r = strs_view(r);
        let ghost rest = strs_view(*tails).skip(i as int);
        let mut block = extend_join_strs(&tails[i], xs);
        let ghost bv = strs_view(block);
        r.append(&mut block);
        proof {
            assert(rest[0] == strs_view(*tails)[i as int]);
            assert(rest.drop_first() =~= strs_view(*tails).skip(i + 1));
            assert(strs_view(r) =~= pre_r + bv);
            assert(pre_r + (bv + append_join(strs_view(*tails).skip(i + 1), strs_view(*xs))) =~= (
            pre_r + bv) + append_join(strs_view(*tails).skip(i + 1), strs_view(*xs)));
        }
        i = i + 1;
    }
    proof {
        assert(strs_view(*tails).skip(tails@.len() as int) =~= Seq::<Seq<char>>::empty());
        assert(strs_view(r) + Seq::<Seq<char>>::empty() =~= strs_view(r));
    }
    r
}

/// The fully enumerated command strings: the product over the command
/// segments, each combination concatenated with no separator.
pub fn product_commands(segs: &Vec<Vec<String>>) -> (r: Vec<String>)
    ensures
        strs_view(r) == command_variants(segs_view(*segs)),
{
    if segs.len() == 0 {
        let r: Vec<String> = Vec::new();
        proof {
            assert(strs_view(r) =~= Seq::<Seq<char>>::empty());
        }
        return r;
    }
    let mut acc: Vec<String> = Vec::new();
    acc.push(String::new());
    proof {
        assert(segs_view(*segs).take(0) =~= Seq::<Seq<Seq<char>>>::empty());
        assert(strs_view(acc) =~= joined_from(segs_view(*segs).take(0)));
    }
    let mut i: usize = 0;
    while i < segs.len()
        invariant
            i <= segs@.len(),
            strs_view(acc) == joined_from(segs_view(*segs).take(i as int)),
        decreases segs@.len() - i,
    {
        let next = append_join_strs(&acc, &segs[i]);
        acc = next;
        proof {
            let sv = segs_view(*segs);
            assert(sv.take(i + 1).drop_last() =~= sv.take(i as int));
            assert(sv.take(i + 1).last() == sv[i as int]);
        }
        i = i + 1;
    }
    proof {
        assert(segs_view(*segs).take(segs@.len() as int) =~= segs_view(*segs));
    }
    acc
}

} // verus!
