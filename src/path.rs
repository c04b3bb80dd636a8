//! Snapshot paths as sequences of components.
use vstd::prelude::*;

verus! {

/// A component that names the current or the enclosing directory.
pub open spec fn is_dot_component(c: Seq<u8>) -> bool {
    c == seq![46u8] || c == seq![46u8, 46u8]
}

/// A finished component: empty ones (from the root, repeated or trailing
/// slashes) are dropped.
pub open spec fn emit(cur: Seq<u8>) -> Seq<Seq<u8>> {
    if cur.len() == 0 {
        Seq::empty()
    } else {
        seq![cur]
    }
}

/// The components of `s`, given the part `cur` of a component already read.
pub open spec fn comps_acc(s: Seq<u8>, cur: Seq<u8>) -> Seq<Seq<u8>>
    decreases s.len(),
{
    if s.len() == 0 {
        emit(cur)
    } else if s[0] == 47u8 {
        emit(cur) + comps_acc(s.drop_first(), Seq::empty())
    } else {
        comps_acc(s.drop_first(), cur.push(s[0]))
    }
}

/// The components of a `/`-separated path.
pub open spec fn components(s: Seq<u8>) -> Seq<Seq<u8>> {
    comps_acc(s, Seq::empty())
}

/// The views of a vector of byte vectors.
pub open spec fn comp_views(vs: Seq<Vec<u8>>) -> Seq<Seq<u8>> {
    vs.map_values(|v: Vec<u8>| v@)
}

/// Why a path cannot be used.
#[derive(Debug, Clone, Copy, PartialEq, Eq, Structural)]
pub enum PathError {
    /// A component is `.` or `..`.
    DotComponent,
}

fn push_component(out: &mut Vec<Vec<u8>>, cur: Vec<u8>)
    ensures
        comp_views(final(out)@) == comp_views(old(out)@) + emit(cur@),
{
    let ghost c = cur@;
    if cur.len() == 0 {
        assert(comp_views(out@) =~= comp_views(out@) + emit(c));
    } else {
        out.push(cur);
        assert(comp_views(out@) =~= comp_views(old(out)@) + emit(c));
    }
}

/// Splits a path at `/` into its components, dropping empty ones.
/// A path with a `.` or `..` component is refused.
pub fn split_path(s: &[u8]) -> (r: Result<Vec<Vec<u8>>, PathError>)
    ensures
        r is Ok <==> !(exists|i: int| 0 <= i < components(s@).len() && is_dot_component(#[trigger] components(s@)[i])),
        r matches Ok(v) ==> comp_views(v@) == components(s@),
{
    let mut out: Vec<Vec<u8>> = Vec::new();
    let mut cur: Vec<u8> = Vec::new();
    let mut i: usize = 0;
    assert(s@.skip(0) =~= s@);
    while i < s.len()
        invariant
            i <= s@.len(),
            comp_views(out@) + comps_acc(s@.skip(i as int), cur@) == components(s@),
        decreases s@.len() - i,
    {
        assert(s@.skip(i as int).drop_first() =~= s@.skip(i + 1));
        assert(s@.skip(i as int)[0] == s@[i as int]);
        if s[i] == 47u8 {
            let ghost before = comp_views(out@);
            let ghost c = cur@;
            push_component(&mut out, cur);
            cur = Vec::new();
            assert(cur@ =~= Seq::<u8>::empty());
            assert(comp_views(out@) + comps_acc(s@.skip(i + 1), cur@) =~= before + (emit(c) + comps_acc(s@.skip(i + 1), Seq::empty())));
        } else {
            cur.push(s[i]);
        }
        i += 1;
    }
    assert(s@.skip(i as int).len() == 0);
    push_component(&mut out, cur);
    let mut k: usize = 0;
    while k < out.len()
        invariant
            k <= out@.len(),
            comp_views(out@) == components(s@),
            forall|j: int| 0 <= j < k ==> !is_dot_component(#[trigger] comp_views(out@)[j]),
        decreases out@.len() - k,
    {
        assert(comp_views(out@)[k as int] == out@[k as int]@);
        if out[k].len() == 2 && out[k][0] == 46u8 && out[k][1] == 46u8 {
            assert(out@[k as int]@ =~= seq![46u8, 46u8]);
            return Err(PathError::DotComponent);
        }
        if out[k].len() == 1 && out[k][0] == 46u8 {
            assert(out@[k as int]@ =~= seq![46u8]);
            return Err(PathError::DotComponent);
        }
        proof {
            if out@[k as int]@ == seq![46u8] {
                assert(out@[k as int]@[0] == 46u8);
            }
            if out@[k as int]@ == seq![46u8, 46u8] {
                assert(out@[k as int]@[0] == 46u8);
                assert(out@[k as int]@[1] == 46u8);
            }
        }
        k += 1;
    }
    Ok(out)
}

/// A trailing slash does not change a path's components.
pub proof fn lemma_trailing_slash(s: Seq<u8>)
    ensures
        components(s.push(47u8)) == components(s),
{
    lemma_trailing_slash_acc(s, Seq::empty());
}

proof fn lemma_trailing_slash_acc(s: Seq<u8>, cur: Seq<u8>)
    ensures
        comps_acc(s.push(47u8), cur) == comps_acc(s, cur),
    decreases s.len(),
{
    let t = s.push(47u8);
    if s.len() == 0 {
        assert(t.drop_first() =~= Seq::<u8>::empty());
        assert(comps_acc(Seq::<u8>::empty(), Seq::empty()) =~= Seq::<Seq<u8>>::empty());
        assert(emit(cur) + Seq::<Seq<u8>>::empty() =~= emit(cur));
    } else {
        assert(t.drop_first() =~= s.drop_first().push(47u8));
        assert(t[0] == s[0]);
        if s[0] == 47u8 {
            lemma_trailing_slash_acc(s.drop_first(), Seq::empty());
        } else {
            lemma_trailing_slash_acc(s.drop_first(), cur.push(s[0]));
        }
    }
}

} // verus!
