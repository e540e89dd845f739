//! The feature declaration model: feature names, composition expressions,
//! declaration sets, canonical expansion and combination enumeration.

use vstd::prelude::*;

verus! {

/// A source position, kept so that errors can point at the offending name.
#[derive(Clone, Copy, Debug, PartialEq, Eq, Structural)]
pub struct Span {
    pub start: usize,
    pub end: usize,
}

/// A feature name: an identifier plus the source span it was written at.
/// Two names denote the same feature exactly when their identifier text is
/// equal; the span is diagnostic metadata only, and the view of a
/// `FeatureName` is therefore just its text.
#[derive(Debug)]
pub struct FeatureName {
    pub text: String,
    pub span: Span,
}

impl View for FeatureName {
    type V = Seq<char>;

    open spec fn view(&self) -> Seq<char> {
        self.text@
    }
}

impl Clone for FeatureName {
    fn clone(&self) -> (r: Self)
        ensures
            r == *self,
    {
        let r = FeatureName { text: self.text.clone(), span: self.span };
        assert(r == *self);
        r
    }
}

impl FeatureName {
    /// Builds a name from its identifier text and source position.
    pub fn new(text: String, span: Span) -> (r: Self)
        ensures
            r@ == text@,
            r.span == span,
    {
        FeatureName { text, span }
    }

    /// The source position this name was written at.
    pub fn span(&self) -> (r: Span)
        ensures
            r == self.span,
    {
        self.span
    }

    /// Whether the two names denote the same feature (equal identifier text).
    pub fn same_name(&self, other: &FeatureName) -> (r: bool)
        ensures
            r == (self@ == other@),
    {
        self.text == other.text
    }
}

/// The identifier texts of a sequence of names.
pub open spec fn name_seq(s: Seq<FeatureName>) -> Seq<Seq<char>> {
    s.map_values(|f: FeatureName| f@)
}

/// Whether some name in `v` has the text `t`.
pub open spec fn contains_name(v: Seq<FeatureName>, t: Seq<char>) -> bool {
    name_seq(v).contains(t)
}

/// Finds the first position of a name with text `t` in `v`, if any.
pub(crate) fn find_name(v: &Vec<FeatureName>, t: &FeatureName) -> (r: Option<usize>)
    ensures
        match r {
            Some(i) => i < v@.len() && v@[i as int]@ == t@ && forall|j: int|
                0 <= j < i ==> v@[j]@ != t@,
            None => !contains_name(v@, t@),
        },
{
    let mut i: usize = 0;
    while i < v.len()
        invariant
            i <= v@.len(),
            forall|j: int| 0 <= j < i ==> v@[j]@ != t@,
        decreases v@.len() - i,
    {
        if v[i].same_name(t) {
            return Some(i);
        }
        i += 1;
    }
    assert(!contains_name(v@, t@)) by {
        assert(forall|j: int| 0 <= j < v@.len() ==> name_seq(v@)[j] != t@);
    }
    None
}

/// Whether `v` holds a name with the text of `t`.
pub(crate) fn vec_contains_name(v: &Vec<FeatureName>, t: &FeatureName) -> (r: bool)
    ensures
        r == contains_name(v@, t@),
{
    let r = find_name(v, t);
    match r {
        Some(i) => {
            assert(name_seq(v@)[i as int] == t@);
            true
        },
        None => false,
    }
}

/// The mathematical content of a composition expression: which feature
/// texts must be active, and which must be inactive.
#[verifier::ext_equal]
pub ghost struct ExprView {
    pub enables: Seq<Seq<char>>,
    pub disables: Seq<Seq<char>>,
}

/// A composite feature's definition: the expression is satisfied by an
/// activation set exactly when every `enables` entry is in the set and no
/// `disables` entry is.
#[derive(Debug)]
pub struct FeaturesCompositionExpression {
    pub enables: Vec<FeatureName>,
    pub disables: Vec<FeatureName>,
}

/// Copies a name list, keeping every name's text and span.
pub(crate) fn clone_names(v: &Vec<FeatureName>) -> (r: Vec<FeatureName>)
    ensures
        r@ == v@,
{
    let mut r: Vec<FeatureName> = Vec::new();
    let mut i: usize = 0;
    while i < v.len()
        invariant
            i <= v@.len(),
            r@ == v@.take(i as int),
        decreases v@.len() - i,
    {
        r.push(v[i].clone());
        assert(r@ =~= v@.take(i + 1));
        i += 1;
    }
    assert(r@ =~= v@);
    r
}

impl Clone for FeaturesCompositionExpression {
    fn clone(&self) -> (r: Self)
        ensures
            r@ == self@,
    {
        let r = FeaturesCompositionExpression {
            enables: clone_names(&self.enables),
            disables: clone_names(&self.disables),
        };
        assert(r@ =~= self@);
        r
    }
}

impl View for FeaturesCompositionExpression {
    type V = ExprView;

    open spec fn view(&self) -> ExprView {
        ExprView { enables: name_seq(self.enables@), disables: name_seq(self.disables@) }
    }
}

/// Satisfaction of an expression against a set of active feature texts:
/// none of the disabled texts is active, and all enabled texts are.
pub open spec fn expr_satisfied(e: ExprView, active: Set<Seq<char>>) -> bool {
    &&& forall|i: int| 0 <= i < e.disables.len() ==> !active.contains(#[trigger] e.disables[i])
    &&& forall|i: int| 0 <= i < e.enables.len() ==> active.contains(#[trigger] e.enables[i])
}

impl FeaturesCompositionExpression {
    /// Evaluates the expression against the activation set `enableds`
    /// (membership is by name text).
    pub fn will_enabled(&self, enableds: &Vec<FeatureName>) -> (r: bool)
        ensures
            r == expr_satisfied(self@, name_seq(enableds@).to_set()),
    {
        let ghost active = name_seq(enableds@).to_set();
        let mut i: usize = 0;
        while i < self.disables.len()
            invariant
                i <= self.disables@.len(),
                active == name_seq(enableds@).to_set(),
                forall|j: int| 0 <= j < i ==> !active.contains(#[trigger] self@.disables[j]),
            decreases self.disables@.len() - i,
        {
            if vec_contains_name(enableds, &self.disables[i]) {
                assert(active.contains(self@.disables[i as int]));
                return false;
            }
            assert(!active.contains(self@.disables[i as int]));
            i += 1;
        }
        let mut k: usize = 0;
        while k < self.enables.len()
            invariant
                k <= self.enables@.len(),
                active == name_seq(enableds@).to_set(),
                forall|j: int| 0 <= j < self.disables@.len() ==> !active.contains(
                    #[trigger] self@.disables[j],
                ),
                forall|j: int| 0 <= j < k ==> active.contains(#[trigger] self@.enables[j]),
            decreases self.enables@.len() - k,
        {
            if !vec_contains_name(enableds, &self.enables[k]) {
                assert(!active.contains(self@.enables[k as int]));
                return false;
            }
            assert(active.contains(self@.enables[k as int]));
            k += 1;
        }
        true
    }
}

/// The mathematical content of a declaration set: atomic feature texts in
/// declaration order, and the composite definitions keyed by feature text.
#[verifier::ext_equal]
pub ghost struct DeclsView {
    pub units: Seq<Seq<char>>,
    pub compositions: Seq<(Seq<char>, ExprView)>,
}

/// The key texts of a composition list.
pub open spec fn comp_keys(cs: Seq<(Seq<char>, ExprView)>) -> Seq<Seq<char>> {
    cs.map_values(|p: (Seq<char>, ExprView)| p.0)
}

/// No text occurs twice in `s`.
pub open spec fn distinct_texts(s: Seq<Seq<char>>) -> bool {
    forall|i: int, j: int| 0 <= i < j < s.len() ==> s[i] != s[j]
}

/// Whether the composition list has an entry keyed `t`.
pub open spec fn has_key(cs: Seq<(Seq<char>, ExprView)>, t: Seq<char>) -> bool {
    comp_keys(cs).contains(t)
}

/// The expression keyed `t`; meaningful only when the keys are distinct
/// and `t` is present.
pub open spec fn comp_at(cs: Seq<(Seq<char>, ExprView)>, t: Seq<char>) -> ExprView {
    cs[choose|i: int| 0 <= i < cs.len() && cs[i].0 == t].1
}

/// Every feature text an expression mentions, enabled or disabled.
pub open spec fn expr_refs(e: ExprView) -> Seq<Seq<char>> {
    e.enables + e.disables
}

/// Well-formedness of a declaration set: atomic names distinct, composite
/// keys distinct, and no name both atomic and composite.
pub open spec fn decls_wf(d: DeclsView) -> bool {
    &&& distinct_texts(d.units)
    &&& distinct_texts(comp_keys(d.compositions))
    &&& forall|i: int| 0 <= i < d.compositions.len() ==> !d.units.contains(
        #[trigger] d.compositions[i].0,
    )
}

/// An expression is canonical when it mentions atomic features only.
pub open spec fn canonical_expr(e: ExprView, units: Seq<Seq<char>>) -> bool {
    forall|i: int| 0 <= i < expr_refs(e).len() ==> units.contains(#[trigger] expr_refs(e)[i])
}

/// A declaration set is canonical when every composite definition is.
pub open spec fn decls_canonical(d: DeclsView) -> bool {
    forall|i: int| 0 <= i < d.compositions.len() ==> canonical_expr(
        #[trigger] d.compositions[i].1,
        d.units,
    )
}

/// Every text an expression mentions is atomic or already resolved.
pub open spec fn refs_ready(e: ExprView, units: Seq<Seq<char>>, resolved: Seq<Seq<char>>) -> bool {
    forall|i: int| 0 <= i < expr_refs(e).len() ==> units.contains(#[trigger] expr_refs(e)[i])
        || resolved.contains(expr_refs(e)[i])
}

/// Rewrites a reference list against already-resolved composites: an atomic
/// reference stands as it is; a reference to a resolved composite is replaced
/// by that composite's (already atomic) `enables` list.
pub open spec fn splice_names(
    resolved: Seq<(Seq<char>, ExprView)>,
    es: Seq<Seq<char>>,
    units: Seq<Seq<char>>,
) -> Seq<Seq<char>>
    decreases es.len(),
{
    if es.len() == 0 {
        Seq::empty()
    } else {
        splice_names(resolved, es.drop_last(), units) + (if units.contains(es.last()) {
            seq![es.last()]
        } else if has_key(resolved, es.last()) {
            comp_at(resolved, es.last()).enables
        } else {
            Seq::empty()
        })
    }
}

/// Canonicalizes one expression: enabled references are spliced, and a
/// disabled reference to a composite is replaced by that composite's
/// `enables` list — disabling a composite excludes every atomic feature the
/// composite unconditionally requires.
pub open spec fn splice_expr(
    resolved: Seq<(Seq<char>, ExprView)>,
    e: ExprView,
    units: Seq<Seq<char>>,
) -> ExprView {
    ExprView {
        enables: splice_names(resolved, e.enables, units),
        disables: splice_names(resolved, e.disables, units),
    }
}

/// One composite of the set `s` whose definition mentions a text that is not
/// atomic and is either undeclared or again in `s`.
pub open spec fn blocked_member(d: DeclsView, s: Set<Seq<char>>, t: Seq<char>) -> bool {
    exists|j: int|
        0 <= j < expr_refs(comp_at(d.compositions, t)).len() && !d.units.contains(
            #[trigger] expr_refs(comp_at(d.compositions, t))[j],
        ) && (!has_key(d.compositions, expr_refs(comp_at(d.compositions, t))[j]) || s.contains(
            expr_refs(comp_at(d.compositions, t))[j],
        ))
}

/// A non-empty set of composite keys none of which can ever be resolved:
/// each member mentions a non-atomic text that is undeclared or lies in the
/// set itself. Expansion fails exactly when such a set exists.
pub open spec fn blocked(d: DeclsView, s: Set<Seq<char>>) -> bool {
    &&& exists|t: Seq<char>| s.contains(t)
    &&& forall|t: Seq<char>| s.contains(t) ==> has_key(d.compositions, t)
    &&& forall|t: Seq<char>| #[trigger] s.contains(t) ==> blocked_member(d, s, t)
}

/// What a successful expansion guarantees: the atomic features are kept, the
/// composite keys are a permutation of the input's, and every output
/// definition is the topological splice of the matching input definition
/// against the output entries before it — hence canonical.
pub open spec fn expand_ok_post(d0: DeclsView, out: DeclsView) -> bool {
    &&& out.units == d0.units
    &&& distinct_texts(comp_keys(out.compositions))
    &&& comp_keys(out.compositions).to_set() == comp_keys(d0.compositions).to_set()
    &&& out.compositions.len() == d0.compositions.len()
    &&& forall|i: int| 0 <= i < out.compositions.len() ==> has_key(
        d0.compositions,
        #[trigger] out.compositions[i].0,
    )
    &&& forall|i: int|
        0 <= i < out.compositions.len() ==> refs_ready(
            comp_at(d0.compositions, #[trigger] out.compositions[i].0),
            d0.units,
            comp_keys(out.compositions.take(i)),
        ) && out.compositions[i].1 == splice_expr(
            out.compositions.take(i),
            comp_at(d0.compositions, out.compositions[i].0),
            d0.units,
        )
    &&& decls_canonical(out)
    &&& decls_wf(out)
}

/// The full declaration set: atomic feature names in declaration order and
/// the composite definitions, keyed by name, in insertion order.
#[derive(Debug)]
pub struct FeatureDeclarations {
    pub units: Vec<FeatureName>,
    pub compositions: Vec<(FeatureName, FeaturesCompositionExpression)>,
}

impl View for FeatureDeclarations {
    type V = DeclsView;

    open spec fn view(&self) -> DeclsView {
        DeclsView {
            units: name_seq(self.units@),
            compositions: self.compositions@.map_values(
                |p: (FeatureName, FeaturesCompositionExpression)| (p.0@, p.1@),
            ),
        }
    }
}

/// Expansion fails only one way: some composite definition can never be
/// rewritten to atomic features, because of a cycle or a reference to an
/// undeclared name.
#[derive(Debug, PartialEq, Eq, Structural, Clone, Copy)]
pub enum ExpandError {
    UndeclaredFeature,
}

impl ExpandError {
    /// The error rendered as text, for diagnostics.
    pub fn message(&self) -> (r: String)
        ensures
            r@ == "UndeclaredFeature"@,
    {
        proof {
            reveal_strlit("UndeclaredFeature");
        }
        "UndeclaredFeature".to_owned()
    }
}

/// With distinct keys, the entry at a position is what `comp_at` finds
/// for its key.
proof fn lemma_comp_at(cs: Seq<(Seq<char>, ExprView)>, i: int)
    requires
        distinct_texts(comp_keys(cs)),
        0 <= i < cs.len(),
    ensures
        has_key(cs, cs[i].0),
        comp_at(cs, cs[i].0) == cs[i].1,
{
    assert(comp_keys(cs)[i] == cs[i].0);
    let j = choose|j: int| 0 <= j < cs.len() && cs[j].0 == cs[i].0;
    assert(comp_keys(cs)[j] == cs[j].0);
    if i != j {
        assert(comp_keys(cs)[i] == comp_keys(cs)[j]);
        assert(false);
    }
}

/// Splicing a list of atomic references is the identity.
proof fn lemma_splice_atomic(
    resolved: Seq<(Seq<char>, ExprView)>,
    es: Seq<Seq<char>>,
    units: Seq<Seq<char>>,
)
    requires
        forall|i: int| 0 <= i < es.len() ==> units.contains(#[trigger] es[i]),
    ensures
        splice_names(resolved, es, units) == es,
    decreases es.len(),
{
    if es.len() == 0 {
        assert(splice_names(resolved, es, units) =~= es);
    } else {
        lemma_splice_atomic(resolved, es.drop_last(), units);
        assert(units.contains(es.last()));
        assert(splice_names(resolved, es, units) =~= es.drop_last() + seq![es.last()]);
        assert(es.drop_last() + seq![es.last()] =~= es);
    }
}

/// Finds the first entry keyed like `t` in a composition list.
fn find_key(
    v: &Vec<(FeatureName, FeaturesCompositionExpression)>,
    t: &FeatureName,
) -> (r: Option<usize>)
    ensures
        match r {
            Some(i) => i < v@.len() && v@[i as int].0@ == t@ && forall|j: int|
                0 <= j < i ==> v@[j as int].0@ != t@,
            None => !has_key(
                v@.map_values(|p: (FeatureName, FeaturesCompositionExpression)| (p.0@, p.1@)),
                t@,
            ),
        },
{
    let ghost cs = v@.map_values(|p: (FeatureName, FeaturesCompositionExpression)| (p.0@, p.1@));
    let mut i: usize = 0;
    while i < v.len()
        invariant
            i <= v@.len(),
            cs == v@.map_values(|p: (FeatureName, FeaturesCompositionExpression)| (p.0@, p.1@)),
            forall|j: int| 0 <= j < i ==> v@[j].0@ != t@,
        decreases v@.len() - i,
    {
        if v[i].0.same_name(t) {
            return Some(i);
        }
        i += 1;
    }
    assert(forall|j: int| 0 <= j < cs.len() ==> comp_keys(cs)[j] != t@);
    None
}

/// The view of a composition entry list.
pub open spec fn pairs_view(v: Seq<(FeatureName, FeaturesCompositionExpression)>) -> Seq<
    (Seq<char>, ExprView),
> {
    v.map_values(|p: (FeatureName, FeaturesCompositionExpression)| (p.0@, p.1@))
}

/// Whether the composition list holds an entry with the key text of `t`.
fn contains_key(
    v: &Vec<(FeatureName, FeaturesCompositionExpression)>,
    t: &FeatureName,
) -> (r: bool)
    ensures
        r == has_key(pairs_view(v@), t@),
{
    match find_key(v, t) {
        Some(i) => {
            assert(comp_keys(pairs_view(v@))[i as int] == t@);
            true
        },
        None => false,
    }
}

/// Whether every feature text `e` mentions is atomic or a key of `out`.
fn check_ready(
    e: &FeaturesCompositionExpression,
    units: &Vec<FeatureName>,
    out: &Vec<(FeatureName, FeaturesCompositionExpression)>,
) -> (r: bool)
    ensures
        r == refs_ready(e@, name_seq(units@), comp_keys(pairs_view(out@))),
{
    let ghost refs = expr_refs(e@);
    let ghost uv = name_seq(units@);
    let ghost kv = comp_keys(pairs_view(out@));
    let mut i: usize = 0;
    while i < e.enables.len()
        invariant
            i <= e.enables@.len(),
            refs == expr_refs(e@),
            uv == name_seq(units@),
            kv == comp_keys(pairs_view(out@)),
            forall|j: int| 0 <= j < i ==> uv.contains(#[trigger] refs[j]) || kv.contains(refs[j]),
        decreases e.enables@.len() - i,
    {
        assert(refs[i as int] == e@.enables[i as int]);
        if !vec_contains_name(units, &e.enables[i]) && !contains_key(out, &e.enables[i]) {
            return false;
        }
        i += 1;
    }
    let ghost n = e.enables@.len();
    let mut k: usize = 0;
    while k < e.disables.len()
        invariant
            k <= e.disables@.len(),
            n == e.enables@.len(),
            refs == expr_refs(e@),
            uv == name_seq(units@),
            kv == comp_keys(pairs_view(out@)),
            forall|j: int| 0 <= j < n + k ==> uv.contains(#[trigger] refs[j]) || kv.contains(
                refs[j],
            ),
        decreases e.disables@.len() - k,
    {
        assert(refs[n + k] == e@.disables[k as int]);
        if !vec_contains_name(units, &e.disables[k]) && !contains_key(out, &e.disables[k]) {
            return false;
        }
        k += 1;
    }
    true
}

/// Rewrites one reference list against the already-resolved entries of
/// `out`, as [`splice_names`] describes.
fn splice_list(
    out: &Vec<(FeatureName, FeaturesCompositionExpression)>,
    es: &Vec<FeatureName>,
    units: &Vec<FeatureName>,
) -> (r: Vec<FeatureName>)
    requires
        distinct_texts(comp_keys(pairs_view(out@))),
        forall|i: int| 0 <= i < es@.len() ==> name_seq(units@).contains(#[trigger] es@[i]@)
            || comp_keys(pairs_view(out@)).contains(es@[i]@),
    ensures
        name_seq(r@) == splice_names(pairs_view(out@), name_seq(es@), name_seq(units@)),
{
    let ghost ov = pairs_view(out@);
    let ghost uv = name_seq(units@);
    let ghost ev = name_seq(es@);
    let mut r: Vec<FeatureName> = Vec::new();
    let mut i: usize = 0;
    while i < es.len()
        invariant
            i <= es@.len(),
            ov == pairs_view(out@),
            uv == name_seq(units@),
            ev == name_seq(es@),
            distinct_texts(comp_keys(ov)),
            forall|j: int| 0 <= j < es@.len() ==> uv.contains(#[trigger] es@[j]@) || comp_keys(
                ov,
            ).contains(es@[j]@),
            name_seq(r@) == splice_names(ov, ev.take(i as int), uv),
        decreases es@.len() - i,
    {
        assert(ev.take(i + 1).drop_last() =~= ev.take(i as int));
        assert(ev.take(i + 1).last() == es@[i as int]@);
        if vec_contains_name(units, &es[i]) {
            r.push(es[i].clone());
            assert(name_seq(r@) =~= splice_names(ov, ev.take(i as int), uv) + seq![
                es@[i as int]@,
            ]);
        } else {
            match find_key(out, &es[i]) {
                Some(j) => {
                    proof {
                        assert(comp_keys(ov)[j as int] == es@[i as int]@);
                        lemma_comp_at(ov, j as int);
                        assert(comp_at(ov, es@[i as int]@) == ov[j as int].1);
                    }
                    let dep = &out[j].1.enables;
                    let ghost dv = name_seq(dep@);
                    assert(dv == ov[j as int].1.enables);
                    let mut k: usize = 0;
                    while k < dep.len()
                        invariant
                            k <= dep@.len(),
                            dv == name_seq(dep@),
                            name_seq(r@) == splice_names(ov, ev.take(i as int), uv) + dv.take(
                                k as int,
                            ),
                        decreases dep@.len() - k,
                    {
                        let ghost r0 = r@;
                        r.push(dep[k].clone());
                        proof {
                            assert(r@ =~= r0.push(dep@[k as int]));
                            assert(name_seq(r@) =~= name_seq(r0).push(dep@[k as int]@));
                            assert(dv.take(k + 1) =~= dv.take(k as int).push(dep@[k as int]@));
                            assert(name_seq(r@) =~= splice_names(ov, ev.take(i as int), uv)
                                + dv.take(k + 1));
                        }
                        k += 1;
                    }
                    assert(dv.take(dep@.len() as int) =~= dv);
                },
                None => {
                    proof {
                        assert(comp_keys(ov).contains(es@[i as int]@));
                        assert(false);
                    }
                },
            }
        }
        assert(name_seq(r@) =~= splice_names(ov, ev.take(i + 1), uv));
        i += 1;
    }
    assert(ev.take(es@.len() as int) =~= ev);
    r
}

/// Copies a composition entry list, keeping every entry's view.
fn clone_comps(v: &Vec<(FeatureName, FeaturesCompositionExpression)>) -> (r: Vec<
    (FeatureName, FeaturesCompositionExpression),
>)
    ensures
        pairs_view(r@) == pairs_view(v@),
{
    let mut r: Vec<(FeatureName, FeaturesCompositionExpression)> = Vec::new();
    let mut i: usize = 0;
    while i < v.len()
        invariant
            i <= v@.len(),
            pairs_view(r@) == pairs_view(v@).take(i as int),
        decreases v@.len() - i,
    {
        let entry = &v[i];
        let c0 = entry.0.clone();
        let c1 = entry.1.clone();
        let ghost r0 = r@;
        let ghost cv = (c0@, c1@);
        r.push((c0, c1));
        proof {
            assert(pairs_view(r@) =~= pairs_view(r0).push(cv));
            assert(cv == pairs_view(v@)[i as int]);
            assert(pairs_view(r@) =~= pairs_view(v@).take(i + 1));
        }
        i += 1;
    }
    assert(pairs_view(r@) =~= pairs_view(v@));
    r
}

/// Every entry of `cs` carries a key of `d0` together with the matching
/// original definition.
pub open spec fn entries_from(d0: DeclsView, cs: Seq<(Seq<char>, ExprView)>) -> bool {
    forall|i: int| 0 <= i < cs.len() ==> has_key(d0.compositions, #[trigger] cs[i].0) && comp_at(
        d0.compositions,
        cs[i].0,
    ) == cs[i].1
}

/// The resolved list is a topological splice of the original definitions:
/// the clauses of [`expand_ok_post`] on a partial output.
pub open spec fn out_pinned(d0: DeclsView, outc: Seq<(Seq<char>, ExprView)>) -> bool {
    forall|i: int| 0 <= i < outc.len() ==> has_key(d0.compositions, #[trigger] outc[i].0)
        && refs_ready(comp_at(d0.compositions, outc[i].0), d0.units, comp_keys(outc.take(i)))
        && outc[i].1 == splice_expr(outc.take(i), comp_at(d0.compositions, outc[i].0), d0.units)
        && canonical_expr(outc[i].1, d0.units)
}

/// The definition keyed `t` mentions a text that is neither atomic nor
/// among the `resolved` keys.
pub open spec fn entry_stuck(d0: DeclsView, resolved: Seq<Seq<char>>, t: Seq<char>) -> bool {
    exists|j: int|
        0 <= j < expr_refs(comp_at(d0.compositions, t)).len() && !d0.units.contains(
            #[trigger] expr_refs(comp_at(d0.compositions, t))[j],
        ) && !resolved.contains(expr_refs(comp_at(d0.compositions, t))[j])
}

/// Bookkeeping for the peeling loop: the keys of the three lists are
/// individually distinct, pairwise disjoint, and together exactly the
/// composite keys of `d0`.
pub open spec fn keys_partition(
    d0: DeclsView,
    a: Seq<(Seq<char>, ExprView)>,
    b: Seq<(Seq<char>, ExprView)>,
    c: Seq<(Seq<char>, ExprView)>,
) -> bool {
    &&& distinct_texts(comp_keys(a))
    &&& distinct_texts(comp_keys(b))
    &&& distinct_texts(comp_keys(c))
    &&& a.len() + b.len() + c.len() == d0.compositions.len()
    &&& forall|t: Seq<char>| #![auto]
        has_key(d0.compositions, t) <==> (has_key(a, t) || has_key(b, t) || has_key(c, t))
    &&& forall|t: Seq<char>| #![auto]
        !(has_key(a, t) && has_key(b, t)) && !(has_key(a, t) && has_key(c, t)) && !(has_key(b, t)
            && has_key(c, t))
}

/// A sequence that starts with `x` contains `t` exactly when `t` is `x` or
/// the rest contains it.
proof fn lemma_contains_cons(s: Seq<Seq<char>>, x: Seq<char>, rest: Seq<Seq<char>>, t: Seq<char>)
    requires
        s =~= seq![x] + rest,
    ensures
        s.contains(t) <==> (t == x || rest.contains(t)),
{
    if s.contains(t) {
        let idx = choose|idx: int| 0 <= idx < s.len() && s[idx] == t;
        if idx > 0 {
            assert(rest[idx - 1] == t);
        }
    }
    if rest.contains(t) {
        let idx = choose|idx: int| 0 <= idx < rest.len() && rest[idx] == t;
        assert(s[idx + 1] == t);
    }
    if t == x {
        assert(s[0] == t);
    }
}

/// A pushed sequence contains `t` exactly when the original does or `t` is
/// the pushed element.
proof fn lemma_contains_push(s: Seq<Seq<char>>, x: Seq<char>, t: Seq<char>)
    ensures
        s.push(x).contains(t) <==> (s.contains(t) || t == x),
{
    if s.push(x).contains(t) {
        let idx = choose|idx: int| 0 <= idx < s.push(x).len() && s.push(x)[idx] == t;
        if idx < s.len() {
            assert(s[idx] == t);
        }
    }
    if s.contains(t) {
        let idx = choose|idx: int| 0 <= idx < s.len() && s[idx] == t;
        assert(s.push(x)[idx] == t);
    }
    if t == x {
        assert(s.push(x)[s.len() as int] == t);
    }
}

/// Splicing against canonical resolved entries yields atomic texts only.
proof fn lemma_splice_result_atomic(
    outc: Seq<(Seq<char>, ExprView)>,
    es: Seq<Seq<char>>,
    units: Seq<Seq<char>>,
)
    requires
        distinct_texts(comp_keys(outc)),
        forall|i: int| 0 <= i < outc.len() ==> canonical_expr(#[trigger] outc[i].1, units),
    ensures
        forall|j: int| 0 <= j < splice_names(outc, es, units).len() ==> units.contains(
            #[trigger] splice_names(outc, es, units)[j],
        ),
    decreases es.len(),
{
    if es.len() > 0 {
        lemma_splice_result_atomic(outc, es.drop_last(), units);
        let prefix = splice_names(outc, es.drop_last(), units);
        let x = es.last();
        if units.contains(x) {
        } else if has_key(outc, x) {
            let w = choose|w: int| 0 <= w < comp_keys(outc).len() && comp_keys(outc)[w] == x;
            assert(outc[w].0 == x);
            lemma_comp_at(outc, w);
            assert(comp_at(outc, x) == outc[w].1);
            assert(canonical_expr(outc[w].1, units));
            assert(forall|j: int| 0 <= j < outc[w].1.enables.len() ==> units.contains(
                #[trigger] outc[w].1.enables[j],
            )) by {
                assert(forall|j: int| 0 <= j < outc[w].1.enables.len() ==> expr_refs(
                    outc[w].1,
                )[j] == outc[w].1.enables[j]);
            }
        }
        assert(forall|j: int| 0 <= j < splice_names(outc, es, units).len() ==> units.contains(
            #[trigger] splice_names(outc, es, units)[j],
        )) by {
            assert(forall|j: int| 0 <= j < prefix.len() ==> splice_names(outc, es, units)[j]
                == prefix[j]);
        }
    }
}

/// No member of a blocked set can stand in a topologically spliced output:
/// walking the blocking references strictly backwards through the output
/// order can never end, so no prefix of the output holds one.
proof fn lemma_blocked_not_in_prefix(
    d0: DeclsView,
    outc: Seq<(Seq<char>, ExprView)>,
    s: Set<Seq<char>>,
    i: int,
)
    requires
        out_pinned(d0, outc),
        distinct_texts(comp_keys(outc)),
        forall|t: Seq<char>| has_key(d0.compositions, t) ==> #[trigger] has_key(outc, t),
        blocked(d0, s),
        0 <= i <= outc.len(),
    ensures
        forall|a: int| 0 <= a < i ==> !s.contains(#[trigger] outc[a].0),
    decreases i,
{
    if i > 0 {
        lemma_blocked_not_in_prefix(d0, outc, s, i - 1);
        if s.contains(outc[i - 1].0) {
            let t = outc[i - 1].0;
            assert(blocked_member(d0, s, t));
            let refs = expr_refs(comp_at(d0.compositions, t));
            let j = choose|j: int|
                0 <= j < refs.len() && !d0.units.contains(#[trigger] refs[j]) && (!has_key(
                    d0.compositions,
                    refs[j],
                ) || s.contains(refs[j]));
            let x = refs[j];
            assert(refs_ready(comp_at(d0.compositions, t), d0.units, comp_keys(outc.take(i - 1))));
            assert(comp_keys(outc.take(i - 1)).contains(x));
            let i2 = choose|i2: int|
                0 <= i2 < comp_keys(outc.take(i - 1)).len() && #[trigger] comp_keys(
                    outc.take(i - 1),
                )[i2] == x;
            assert(outc[i2].0 == x);
            assert(comp_keys(outc)[i2] == x);
            assert(has_key(d0.compositions, x));
            assert(s.contains(x));
            assert(false);
        }
    }
}

/// A successful expansion refutes every candidate blocked set.
proof fn lemma_expand_ok_no_blocked(d0: DeclsView, outc: Seq<(Seq<char>, ExprView)>)
    requires
        out_pinned(d0, outc),
        distinct_texts(comp_keys(outc)),
        forall|t: Seq<char>| has_key(d0.compositions, t) ==> #[trigger] has_key(outc, t),
    ensures
        forall|s: Set<Seq<char>>| !blocked(d0, s),
{
    assert forall|s: Set<Seq<char>>| !blocked(d0, s) by {
        if blocked(d0, s) {
            let t = choose|t: Seq<char>| s.contains(t);
            assert(has_key(d0.compositions, t));
            assert(has_key(outc, t));
            let i = choose|i: int| 0 <= i < comp_keys(outc).len() && comp_keys(outc)[i] == t;
            assert(outc[i].0 == t);
            lemma_blocked_not_in_prefix(d0, outc, s, outc.len() as int);
        }
    }
}

impl FeatureDeclarations {
    /// Rewrites every composite definition into canonical, atomic-only form
    /// by repeated topological peeling: a definition is resolved once all
    /// the composites it mentions are, splicing each resolved reference's
    /// `enables` list in place of the reference. Fails exactly when some
    /// set of composites can never be peeled — a dependency cycle or a
    /// reference to an undeclared feature.
    ///
    /// Expansion is a fixed point: a declaration set that is already
    /// canonical comes back unchanged.
    pub fn expand(&self) -> (r: Result<FeatureDeclarations, ExpandError>)
        requires
            decls_wf(self@),
        ensures
            match r {
                Ok(out) => expand_ok_post(self@, out@) && (decls_canonical(self@) ==> out@
                    == self@) && (forall|s: Set<Seq<char>>| !blocked(self@, s)),
                Err(e) => e == ExpandError::UndeclaredFeature && exists|s: Set<Seq<char>>|
                    blocked(self@, s),
            },
    {
        let ghost d0 = self@;
        let units = clone_names(&self.units);
        let mut pending = clone_comps(&self.compositions);
        let mut out: Vec<(FeatureName, FeaturesCompositionExpression)> = Vec::new();
        proof {
            assert(pairs_view(pending@) =~= d0.compositions);
            assert(pairs_view(out@) =~= Seq::<(Seq<char>, ExprView)>::empty());
            assert(comp_keys(pairs_view(out@)) =~= Seq::<Seq<char>>::empty());
            assert(d0.compositions.take(0) =~= Seq::<(Seq<char>, ExprView)>::empty());
            assert(entries_from(d0, pairs_view(pending@))) by {
                assert forall|i: int| 0 <= i < d0.compositions.len() implies has_key(
                    d0.compositions,
                    #[trigger] d0.compositions[i].0,
                ) && comp_at(d0.compositions, d0.compositions[i].0) == d0.compositions[i].1 by {
                    lemma_comp_at(d0.compositions, i);
                }
            }
        }
        while pending.len() > 0
            invariant
                d0 == self@,
                decls_wf(d0),
                name_seq(units@) == d0.units,
                entries_from(d0, pairs_view(pending@)),
                out_pinned(d0, pairs_view(out@)),
                keys_partition(
                    d0,
                    pairs_view(out@),
                    pairs_view(pending@),
                    Seq::<(Seq<char>, ExprView)>::empty(),
                ),
                decls_canonical(d0) ==> pairs_view(out@) == d0.compositions.take(out@.len() as int)
                    && pairs_view(pending@) == d0.compositions.skip(out@.len() as int),
            decreases pending@.len(),
        {
            let ghost out0 = pairs_view(out@);
            let prev_len = pending.len();
            let mut next: Vec<(FeatureName, FeaturesCompositionExpression)> = Vec::new();
            let mut i: usize = 0;
            proof {
                assert(pairs_view(next@) =~= Seq::<(Seq<char>, ExprView)>::empty());
                assert(comp_keys(pairs_view(next@)) =~= Seq::<Seq<char>>::empty());
                assert(pairs_view(pending@).skip(0) =~= pairs_view(pending@));
                assert(pairs_view(out@).take(out0.len() as int) =~= out0);
            }
            while i < pending.len()
                invariant
                    d0 == self@,
                    decls_wf(d0),
                    name_seq(units@) == d0.units,
                    i <= pending@.len(),
                    entries_from(d0, pairs_view(pending@)),
                    entries_from(d0, pairs_view(next@)),
                    out_pinned(d0, pairs_view(out@)),
                    keys_partition(
                        d0,
                        pairs_view(out@),
                        pairs_view(next@),
                        pairs_view(pending@).skip(i as int),
                    ),
                    pairs_view(out@).take(out0.len() as int) == out0,
                    out@.len() >= out0.len(),
                    pending@.len() == prev_len,
                    out@.len() + next@.len() == out0.len() + i,
                    forall|k: int| 0 <= k < next@.len() ==> entry_stuck(
                        d0,
                        comp_keys(out0),
                        #[trigger] pairs_view(next@)[k].0,
                    ),
                    decls_canonical(d0) ==> next@.len() == 0 && pairs_view(out@)
                        == d0.compositions.take(out@.len() as int) && pairs_view(pending@)
                        == d0.compositions.skip(out0.len() as int),
                decreases pending@.len() - i,
            {
                let ghost outv = pairs_view(out@);
                let ghost pendv = pairs_view(pending@);
                let ghost p = pendv[i as int];
                proof {
                    assert(pendv.skip(i as int) =~= seq![p] + pendv.skip(i + 1));
                    assert(comp_keys(pendv.skip(i as int)) =~= seq![p.0] + comp_keys(
                        pendv.skip(i + 1),
                    ));
                    assert forall|t: Seq<char>|
                        has_key(pendv.skip(i as int), t) <==> (t == p.0 || has_key(
                            pendv.skip(i + 1),
                            t,
                        )) by {
                        lemma_contains_cons(
                            comp_keys(pendv.skip(i as int)),
                            p.0,
                            comp_keys(pendv.skip(i + 1)),
                            t,
                        );
                    }
                    assert(distinct_texts(comp_keys(pendv.skip(i + 1)))) by {
                        assert(forall|a: int|
                            0 <= a < comp_keys(pendv.skip(i + 1)).len() ==> comp_keys(
                                pendv.skip(i as int),
                            )[a + 1] == #[trigger] comp_keys(pendv.skip(i + 1))[a]);
                    }
                    assert(!has_key(pendv.skip(i + 1), p.0)) by {
                        if has_key(pendv.skip(i + 1), p.0) {
                            let w = choose|w: int|
                                0 <= w < comp_keys(pendv.skip(i + 1)).len() && #[trigger] comp_keys(
                                    pendv.skip(i + 1),
                                )[w] == p.0;
                            assert(comp_keys(pendv.skip(i as int))[0] == p.0);
                            assert(comp_keys(pendv.skip(i as int))[w + 1] == p.0);
                        }
                    }
                    // the current entry is an original definition
                    assert(pendv[i as int] == pairs_view(pending@)[i as int]);
                    assert(has_key(d0.compositions, p.0) && comp_at(d0.compositions, p.0) == p.1);
                }
                let entry = &pending[i];
                assert(entry.0@ == p.0 && entry.1@ == p.1);
                let ready = check_ready(&entry.1, &units, &out);
                if ready {
                    proof {
                        assert(distinct_texts(comp_keys(outv)));
                        assert forall|j: int| 0 <= j < entry.1@.enables.len() implies name_seq(
                            units@,
                        ).contains(#[trigger] entry.1.enables@[j]@) || comp_keys(outv).contains(
                            entry.1.enables@[j]@,
                        ) by {
                            assert(expr_refs(entry.1@)[j] == entry.1@.enables[j]);
                        }
                        assert forall|j: int| 0 <= j < entry.1@.disables.len() implies name_seq(
                            units@,
                        ).contains(#[trigger] entry.1.disables@[j]@) || comp_keys(outv).contains(
                            entry.1.disables@[j]@,
                        ) by {
                            assert(expr_refs(entry.1@)[entry.1@.enables.len() + j]
                                == entry.1@.disables[j]);
                        }
                    }
                    proof {
                        assert forall|a: int| 0 <= a < outv.len() implies canonical_expr(
                            #[trigger] outv[a].1,
                            d0.units,
                        ) by {
                            assert(has_key(d0.compositions, outv[a].0));
                        }
                    }
                    let en = splice_list(&out, &entry.1.enables, &units);
                    let dis = splice_list(&out, &entry.1.disables, &units);
                    let k = entry.0.clone();
                    let spliced = FeaturesCompositionExpression { enables: en, disables: dis };
                    let ghost sv = spliced@;
                    proof {
                        assert(sv =~= splice_expr(outv, p.1, d0.units));
                        assert(distinct_texts(comp_keys(outv)));
                        lemma_splice_result_atomic(outv, p.1.enables, d0.units);
                        lemma_splice_result_atomic(outv, p.1.disables, d0.units);
                        assert(canonical_expr(sv, d0.units)) by {
                            assert(forall|j: int| 0 <= j < sv.enables.len() ==> expr_refs(
                                sv,
                            )[j] == sv.enables[j]);
                            assert(forall|j: int| 0 <= j < sv.disables.len() ==> expr_refs(
                                sv,
                            )[sv.enables.len() + j] == sv.disables[j]);
                        }
                    }
                    out.push((k, spliced));
                    proof {
                        let outv2 = pairs_view(out@);
                        assert(outv2 =~= outv.push((p.0, sv)));
                        assert(comp_keys(outv2) =~= comp_keys(outv).push(p.0));
                        assert forall|t: Seq<char>|
                            has_key(outv2, t) <==> (has_key(outv, t) || t == p.0) by {
                            lemma_contains_push(comp_keys(outv), p.0, t);
                        }
                        assert(distinct_texts(comp_keys(outv2))) by {
                            assert(!has_key(outv, p.0));
                            assert(forall|a: int|
                                0 <= a < comp_keys(outv).len() ==> comp_keys(outv2)[a] == comp_keys(
                                    outv,
                                )[a]);
                        }
                        assert(out_pinned(d0, outv2)) by {
                            assert forall|a: int| 0 <= a < outv2.len() implies has_key(
                                d0.compositions,
                                #[trigger] outv2[a].0,
                            ) && refs_ready(
                                comp_at(d0.compositions, outv2[a].0),
                                d0.units,
                                comp_keys(outv2.take(a)),
                            ) && outv2[a].1 == splice_expr(
                                outv2.take(a),
                                comp_at(d0.compositions, outv2[a].0),
                                d0.units,
                            ) && canonical_expr(outv2[a].1, d0.units) by {
                                if a < outv.len() {
                                    assert(outv2.take(a) =~= outv.take(a));
                                    assert(outv2[a] == outv[a]);
                                } else {
                                    assert(outv2.take(a) =~= outv);
                                    assert(outv2[a] == (p.0, sv));
                                }
                            }
                        }
                        assert(out0.len() <= outv.len());
                        assert(outv2.take(out0.len() as int) =~= outv.take(out0.len() as int));
                        assert(outv2.take(out0.len() as int) =~= out0);
                        if decls_canonical(d0) {
                            assert(outv == d0.compositions.take(outv.len() as int));
                            assert(p == d0.compositions[outv.len() as int]) by {
                                assert(pendv == d0.compositions.skip(out0.len() as int));
                                assert(out0.len() + i == outv.len());
                            }
                            assert(canonical_expr(p.1, d0.units)) by {
                                assert(d0.compositions[outv.len() as int].1 == p.1);
                            }
                            assert forall|j: int| 0 <= j < p.1.enables.len() implies d0
                                .units
                                .contains(#[trigger] p.1.enables[j]) by {
                                assert(expr_refs(p.1)[j] == p.1.enables[j]);
                            }
                            assert forall|j: int| 0 <= j < p.1.disables.len() implies d0
                                .units
                                .contains(#[trigger] p.1.disables[j]) by {
                                assert(expr_refs(p.1)[p.1.enables.len() + j] == p.1.disables[j]);
                            }
                            lemma_splice_atomic(outv, p.1.enables, d0.units);
                            lemma_splice_atomic(outv, p.1.disables, d0.units);
                            assert(sv =~= p.1);
                            assert(outv2 =~= d0.compositions.take(outv.len() as int + 1));
                        }
                    }
                } else {
                    proof {
                        assert(!refs_ready(p.1, name_seq(units@), comp_keys(outv)));
                        assert(entry_stuck(d0, comp_keys(out0), p.0)) by {
                            let j = choose|j: int|
                                0 <= j < expr_refs(p.1).len() && !(name_seq(units@).contains(
                                    #[trigger] expr_refs(p.1)[j],
                                ) || comp_keys(outv).contains(expr_refs(p.1)[j]));
                            assert(!comp_keys(out0).contains(expr_refs(p.1)[j])) by {
                                if comp_keys(out0).contains(expr_refs(p.1)[j]) {
                                    let w = choose|w: int|
                                        0 <= w < comp_keys(out0).len() && comp_keys(out0)[w]
                                            == expr_refs(p.1)[j];
                                    assert(comp_keys(outv)[w] == comp_keys(out0)[w]) by {
                                        assert(outv.take(out0.len() as int)[w] == outv[w]);
                                    }
                                }
                            }
                            assert(comp_at(d0.compositions, p.0) == p.1);
                        }
                        if decls_canonical(d0) {
                            assert(pendv == d0.compositions.skip(out0.len() as int));
                            assert(p == d0.compositions[out0.len() + i]);
                            assert(canonical_expr(p.1, d0.units));
                            assert forall|j: int| 0 <= j < expr_refs(p.1).len() implies name_seq(
                                units@,
                            ).contains(#[trigger] expr_refs(p.1)[j]) by {}
                            assert(false);
                        }
                    }
                    let k = entry.0.clone();
                    let e = entry.1.clone();
                    let ghost nextv0 = pairs_view(next@);
                    proof {
                        assert(comp_keys(pendv.skip(i as int))[0] == p.0);
                        assert(has_key(pendv.skip(i as int), p.0));
                        assert(!has_key(nextv0, p.0));
                    }
                    next.push((k, e));
                    proof {
                        assert(pairs_view(next@) =~= nextv0.push((p.0, p.1)));
                        assert(comp_keys(pairs_view(next@)) =~= comp_keys(nextv0).push(p.0));
                        assert forall|t: Seq<char>|
                            has_key(pairs_view(next@), t) <==> (has_key(nextv0, t) || t
                                == p.0) by {
                            lemma_contains_push(comp_keys(nextv0), p.0, t);
                        }
                        assert(distinct_texts(comp_keys(pairs_view(next@)))) by {
                            assert(!has_key(nextv0, p.0));
                            assert(forall|a: int|
                                0 <= a < comp_keys(nextv0).len() ==> comp_keys(
                                    pairs_view(next@),
                                )[a] == comp_keys(nextv0)[a]);
                        }
                        assert(forall|k2: int|
                            0 <= k2 < nextv0.len() ==> pairs_view(next@)[k2] == nextv0[k2]);
                    }
                }
                i += 1;
            }
            proof {
                assert(pairs_view(pending@).skip(pending@.len() as int) =~= Seq::<
                    (Seq<char>, ExprView),
                >::empty());
            }
            if next.len() == prev_len {
                proof {
                    let nextv = pairs_view(next@);
                    assert(out@.len() == out0.len());
                    assert(pairs_view(out@) =~= out0) by {
                        assert(pairs_view(out@).take(out0.len() as int) =~= pairs_view(out@));
                    }
                    let s = Set::new(|t: Seq<char>| has_key(nextv, t));
                    assert(blocked(d0, s)) by {
                        assert(nextv.len() > 0);
                        assert(comp_keys(nextv).contains(comp_keys(nextv)[0]));
                        assert(s.contains(comp_keys(nextv)[0]));
                        assert forall|t: Seq<char>| s.contains(t) implies has_key(
                            d0.compositions,
                            t,
                        ) by {
                            let w = choose|w: int|
                                0 <= w < comp_keys(nextv).len() && comp_keys(nextv)[w] == t;
                            assert(nextv[w].0 == t);
                        }
                        assert forall|t: Seq<char>| #[trigger]
                            s.contains(t) implies blocked_member(d0, s, t) by {
                            let w = choose|w: int|
                                0 <= w < comp_keys(nextv).len() && comp_keys(nextv)[w] == t;
                            assert(nextv[w].0 == t);
                            assert(entry_stuck(d0, comp_keys(out0), t));
                            let j = choose|j: int|
                                0 <= j < expr_refs(comp_at(d0.compositions, t)).len()
                                    && !d0.units.contains(
                                    #[trigger] expr_refs(comp_at(d0.compositions, t))[j],
                                ) && !comp_keys(out0).contains(
                                    expr_refs(comp_at(d0.compositions, t))[j],
                                );
                            let x = expr_refs(comp_at(d0.compositions, t))[j];
                            if has_key(d0.compositions, x) {
                                assert(has_key(pairs_view(out@), x) || has_key(nextv, x)
                                    || has_key(
                                    pairs_view(pending@).skip(pending@.len() as int),
                                    x,
                                ));
                                assert(!has_key(pairs_view(out@), x));
                                assert(s.contains(x));
                            }
                        }
                    }
                    assert(exists|s2: Set<Seq<char>>| blocked(d0, s2));
                }
                return Err(ExpandError::UndeclaredFeature);
            }
            proof {
                assert(next@.len() < prev_len);
            }
            pending = next;
        }
        proof {
            let outv = pairs_view(out@);
            assert(pairs_view(pending@).len() == 0);
            assert forall|t: Seq<char>| has_key(d0.compositions, t) implies #[trigger] has_key(
                outv,
                t,
            ) by {}
            assert(comp_keys(outv).to_set() =~= comp_keys(d0.compositions).to_set()) by {
                assert forall|t: Seq<char>|
                    comp_keys(outv).contains(t) <==> comp_keys(d0.compositions).contains(t) by {
                    assert(has_key(d0.compositions, t) <==> (has_key(outv, t) || has_key(
                        pairs_view(pending@),
                        t,
                    ) || has_key(Seq::<(Seq<char>, ExprView)>::empty(), t)));
                    assert(comp_keys(pairs_view(pending@)).len() == 0);
                }
            }
            let od = DeclsView { units: d0.units, compositions: outv };
            assert(decls_canonical(od)) by {
                assert forall|a: int| 0 <= a < od.compositions.len() implies canonical_expr(
                    #[trigger] od.compositions[a].1,
                    od.units,
                ) by {
                    assert(has_key(d0.compositions, outv[a].0));
                }
            }
            assert(decls_wf(od)) by {
                assert forall|a: int| 0 <= a < outv.len() implies !od.units.contains(
                    #[trigger] outv[a].0,
                ) by {
                    assert(has_key(d0.compositions, outv[a].0));
                    let w = choose|w: int|
                        0 <= w < comp_keys(d0.compositions).len() && comp_keys(d0.compositions)[w]
                            == outv[a].0;
                    assert(d0.compositions[w].0 == outv[a].0);
                }
            }
            lemma_expand_ok_no_blocked(d0, outv);
            if decls_canonical(d0) {
                assert(outv =~= d0.compositions) by {
                    assert(outv == d0.compositions.take(out@.len() as int));
                    assert(out@.len() == d0.compositions.len());
                }
            }
        }
        let result = FeatureDeclarations { units, compositions: out };
        proof {
            assert(result@.units == d0.units);
            if decls_canonical(d0) {
                assert(result@ =~= d0);
            }
        }
        Ok(result)
    }
}

/// One raw declaration item: a bare atomic feature name, or a composite
/// feature with its defining expression.
pub enum Declaration {
    Unit(FeatureName),
    Composition(FeatureName, FeaturesCompositionExpression),
}

/// The name a declaration item declares.
pub open spec fn decl_name(d: Declaration) -> Seq<char> {
    match d {
        Declaration::Unit(n) => n@,
        Declaration::Composition(k, _) => k@,
    }
}

/// No name is declared both as an atomic feature and as a composite one.
pub open spec fn no_cross_decl(items: Seq<Declaration>) -> bool {
    forall|i: int, j: int|
        0 <= i < items.len() && 0 <= j < items.len() && (#[trigger] items[i]) is Unit
            && (#[trigger] items[j]) is Composition ==> decl_name(items[i]) != decl_name(items[j])
}

/// The atomic feature texts a declaration list collects, in order, with a
/// repeated atomic name accepted once (declaring a toggle twice is
/// idempotent).
pub open spec fn collect_units(items: Seq<Declaration>) -> Seq<Seq<char>>
    decreases items.len(),
{
    if items.len() == 0 {
        Seq::empty()
    } else {
        let r = collect_units(items.drop_last());
        match items.last() {
            Declaration::Unit(n) => if r.contains(n@) {
                r
            } else {
                r.push(n@)
            },
            Declaration::Composition(_, _) => r,
        }
    }
}

/// The composite definitions a declaration list collects, in order, the
/// first definition of a name winning.
pub open spec fn collect_comps(items: Seq<Declaration>) -> Seq<(Seq<char>, ExprView)>
    decreases items.len(),
{
    if items.len() == 0 {
        Seq::empty()
    } else {
        let r = collect_comps(items.drop_last());
        match items.last() {
            Declaration::Unit(_) => r,
            Declaration::Composition(k, e) => if has_key(r, k@) {
                r
            } else {
                r.push((k@, e@))
            },
        }
    }
}

/// The declaration set a raw item list collects, before expansion.
pub open spec fn collected(items: Seq<Declaration>) -> DeclsView {
    DeclsView { units: collect_units(items), compositions: collect_comps(items) }
}

/// The collected atomic texts are distinct and all stem from `Unit` items.
proof fn lemma_collect_units_wf(items: Seq<Declaration>)
    ensures
        distinct_texts(collect_units(items)),
        forall|t: Seq<char>| collect_units(items).contains(t) ==> exists|i: int|
            0 <= i < items.len() && (#[trigger] items[i]) is Unit && decl_name(items[i]) == t,
    decreases items.len(),
{
    if items.len() > 0 {
        lemma_collect_units_wf(items.drop_last());
        let prev = collect_units(items.drop_last());
        let cur = collect_units(items);
        assert(forall|i: int|
            0 <= i < items.len() - 1 ==> items.drop_last()[i] == #[trigger] items[i]);
        match items.last() {
            Declaration::Unit(n) => {
                if !prev.contains(n@) {
                    assert(distinct_texts(cur)) by {
                        assert(forall|a: int| 0 <= a < prev.len() ==> cur[a] == #[trigger] prev[a]);
                        assert(cur[cur.len() - 1] == n@);
                    }
                    assert forall|t: Seq<char>| cur.contains(t) implies exists|i: int|
                        0 <= i < items.len() && (#[trigger] items[i]) is Unit && decl_name(
                            items[i],
                        ) == t by {
                        lemma_contains_push(prev, n@, t);
                        if t == n@ {
                            assert(items[items.len() - 1] is Unit);
                            assert(decl_name(items[items.len() - 1]) == t);
                        } else {
                            assert(prev.contains(t));
                            let w = choose|w: int|
                                0 <= w < items.drop_last().len() && (#[trigger] items.drop_last()[w]) is Unit
                                    && decl_name(items.drop_last()[w]) == t;
                            assert(items[w] is Unit && decl_name(items[w]) == t);
                        }
                    }
                }
            },
            Declaration::Composition(_, _) => {},
        }
    }
}

/// The collected composite keys are distinct and all stem from
/// `Composition` items.
proof fn lemma_collect_comps_wf(items: Seq<Declaration>)
    ensures
        distinct_texts(comp_keys(collect_comps(items))),
        forall|t: Seq<char>| has_key(collect_comps(items), t) ==> exists|i: int|
            0 <= i < items.len() && (#[trigger] items[i]) is Composition && decl_name(items[i])
                == t,
    decreases items.len(),
{
    if items.len() > 0 {
        lemma_collect_comps_wf(items.drop_last());
        let prev = collect_comps(items.drop_last());
        let cur = collect_comps(items);
        assert(forall|i: int|
            0 <= i < items.len() - 1 ==> items.drop_last()[i] == #[trigger] items[i]);
        match items.last() {
            Declaration::Composition(k, e) => {
                if !has_key(prev, k@) {
                    assert(cur == prev.push((k@, e@)));
                    assert(comp_keys(cur) =~= comp_keys(prev).push(k@));
                    assert(distinct_texts(comp_keys(cur))) by {
                        assert(forall|a: int|
                            0 <= a < comp_keys(prev).len() ==> comp_keys(cur)[a]
                                == #[trigger] comp_keys(prev)[a]);
                        assert(comp_keys(cur)[comp_keys(cur).len() - 1] == k@);
                    }
                    assert forall|t: Seq<char>| has_key(cur, t) implies exists|i: int|
                        0 <= i < items.len() && (#[trigger] items[i]) is Composition && decl_name(
                            items[i],
                        ) == t by {
                        lemma_contains_push(comp_keys(prev), k@, t);
                        assert(comp_keys(cur) =~= comp_keys(prev).push(k@));
                        if t == k@ {
                            assert(items[items.len() - 1] is Composition);
                            assert(decl_name(items[items.len() - 1]) == t);
                        } else {
                            assert(has_key(prev, t));
                            let w = choose|w: int|
                                0 <= w < items.drop_last().len() && (#[trigger] items.drop_last()[w]) is Composition
                                    && decl_name(items.drop_last()[w]) == t;
                            assert(items[w] is Composition && decl_name(items[w]) == t);
                        }
                    }
                }
            },
            Declaration::Unit(_) => {},
        }
    }
}

impl FeatureDeclarations {
    /// Builds a declaration set from raw declaration items — atomic names
    /// collected in order (a repeat is accepted once), composite
    /// definitions keyed by name (the first definition of a name wins) —
    /// and immediately expands it to canonical form.
    pub fn new(items: Vec<Declaration>) -> (r: Result<FeatureDeclarations, ExpandError>)
        requires
            no_cross_decl(items@),
        ensures
            match r {
                Ok(out) => expand_ok_post(collected(items@), out@) && (decls_canonical(
                    collected(items@),
                ) ==> out@ == collected(items@)) && (forall|s: Set<Seq<char>>|
                    !blocked(collected(items@), s)),
                Err(e) => e == ExpandError::UndeclaredFeature && exists|s: Set<Seq<char>>|
                    blocked(collected(items@), s),
            },
    {
        let mut units: Vec<FeatureName> = Vec::new();
        let mut comps: Vec<(FeatureName, FeaturesCompositionExpression)> = Vec::new();
        let mut i: usize = 0;
        proof {
            assert(items@.take(0) =~= Seq::<Declaration>::empty());
            assert(name_seq(units@) =~= collect_units(items@.take(0)));
            assert(pairs_view(comps@) =~= collect_comps(items@.take(0)));
        }
        while i < items.len()
            invariant
                i <= items@.len(),
                name_seq(units@) == collect_units(items@.take(i as int)),
                pairs_view(comps@) == collect_comps(items@.take(i as int)),
            decreases items@.len() - i,
        {
            proof {
                assert(items@.take(i + 1).drop_last() =~= items@.take(i as int));
                assert(items@.take(i + 1).last() == items@[i as int]);
            }
            match &items[i] {
                Declaration::Unit(n) => {
                    if !vec_contains_name(&units, n) {
                        let ghost u0 = name_seq(units@);
                        units.push(n.clone());
                        assert(name_seq(units@) =~= u0.push(n@));
                    }
                },
                Declaration::Composition(k, e) => {
                    if !contains_key(&comps, k) {
                        let c0 = k.clone();
                        let c1 = e.clone();
                        let ghost p0 = pairs_view(comps@);
                        let ghost cv = (c0@, c1@);
                        comps.push((c0, c1));
                        assert(pairs_view(comps@) =~= p0.push(cv));
                    }
                },
            }
            i += 1;
        }
        proof {
            assert(items@.take(items@.len() as int) =~= items@);
        }
        let decls = FeatureDeclarations { units, compositions: comps };
        proof {
            assert(decls@ =~= collected(items@));
            lemma_collect_units_wf(items@);
            lemma_collect_comps_wf(items@);
            assert(decls_wf(decls@)) by {
                assert forall|a: int| 0 <= a < decls@.compositions.len() implies !decls@
                    .units
                    .contains(#[trigger] decls@.compositions[a].0) by {
                    let t = decls@.compositions[a].0;
                    assert(comp_keys(decls@.compositions)[a] == t);
                    assert(has_key(collect_comps(items@), t));
                    if decls@.units.contains(t) {
                        let wi = choose|wi: int|
                            0 <= wi < items@.len() && (#[trigger] items@[wi]) is Unit && decl_name(
                                items@[wi],
                            ) == t;
                        let wj = choose|wj: int|
                            0 <= wj < items@.len() && (#[trigger] items@[wj]) is Composition
                                && decl_name(items@[wj]) == t;
                        assert(false);
                    }
                }
            }
        }
        decls.expand()
    }
}

/// The members of `units` whose position has its bit set in `m`: the
/// `m`-th subset of the atomic features.
pub open spec fn masked(units: Seq<Seq<char>>, m: nat) -> Seq<Seq<char>>
    decreases units.len(),
{
    if units.len() == 0 {
        Seq::empty()
    } else {
        masked(units.drop_last(), m) + (if (m / vstd::arithmetic::power2::pow2(
            (units.len() - 1) as nat,
        )) % 2 == 1 {
            seq![units.last()]
        } else {
            Seq::empty()
        })
    }
}

/// The composite keys whose definition the activation set satisfies, in
/// definition order.
pub open spec fn implied(cs: Seq<(Seq<char>, ExprView)>, active: Set<Seq<char>>) -> Seq<Seq<char>>
    decreases cs.len(),
{
    if cs.len() == 0 {
        Seq::empty()
    } else {
        implied(cs.drop_last(), active) + (if expr_satisfied(cs.last().1, active) {
            seq![cs.last().0]
        } else {
            Seq::empty()
        })
    }
}

/// The full activation set for the `m`-th subset of the atomic features:
/// the subset itself followed by every composite feature it implies.
pub open spec fn combo_spec(d: DeclsView, m: nat) -> Seq<Seq<char>> {
    masked(d.units, m) + implied(d.compositions, masked(d.units, m).to_set())
}

/// Soundness of implication: a composite key listed by `implied` has a
/// definition that the activation set satisfies on its own.
pub proof fn lemma_implication_sound(
    cs: Seq<(Seq<char>, ExprView)>,
    active: Set<Seq<char>>,
    t: Seq<char>,
)
    requires
        implied(cs, active).contains(t),
    ensures
        exists|i: int|
            0 <= i < cs.len() && (#[trigger] cs[i]).0 == t && expr_satisfied(cs[i].1, active),
    decreases cs.len(),
{
    let full = implied(cs, active);
    let prev = implied(cs.drop_last(), active);
    let idx = choose|idx: int| 0 <= idx < full.len() && full[idx] == t;
    if idx < prev.len() {
        assert(prev[idx] == t);
        lemma_implication_sound(cs.drop_last(), active, t);
        let w = choose|w: int|
            0 <= w < cs.drop_last().len() && (#[trigger] cs.drop_last()[w]).0 == t
                && expr_satisfied(cs.drop_last()[w].1, active);
        assert(cs[w] == cs.drop_last()[w]);
        assert((cs[w]).0 == t && expr_satisfied(cs[w].1, active));
    } else {
        assert(expr_satisfied(cs.last().1, active) && cs.last().0 == t);
        assert((cs[cs.len() - 1]).0 == t && expr_satisfied(cs[cs.len() - 1].1, active));
    }
}

/// Every member of a masked subset is an atomic feature.
proof fn lemma_masked_subset(units: Seq<Seq<char>>, m: nat)
    ensures
        forall|j: int| 0 <= j < masked(units, m).len() ==> units.contains(
            #[trigger] masked(units, m)[j],
        ),
    decreases units.len(),
{
    if units.len() > 0 {
        lemma_masked_subset(units.drop_last(), m);
        let prev = masked(units.drop_last(), m);
        assert(forall|j: int|
            0 <= j < units.drop_last().len() ==> units.drop_last()[j] == #[trigger] units[j]);
        assert(units.contains(units.last())) by {
            assert(units[units.len() - 1] == units.last());
        }
        assert forall|j: int| 0 <= j < masked(units, m).len() implies units.contains(
            #[trigger] masked(units, m)[j],
        ) by {
            if j < prev.len() {
                assert(masked(units, m)[j] == prev[j]);
                assert(units.drop_last().contains(prev[j]));
                let w = choose|w: int|
                    0 <= w < units.drop_last().len() && units.drop_last()[w] == prev[j];
                assert(units[w] == prev[j]);
            } else {
                assert(masked(units, m)[j] == units.last());
            }
        }
    }
}

/// Soundness of implication over a whole combination: every composite
/// feature a combination includes satisfies its canonical definition
/// against the combination's atomic subset alone.
pub proof fn lemma_combination_sound(d: DeclsView, m: nat, t: Seq<char>)
    requires
        decls_wf(d),
        combo_spec(d, m).contains(t),
        has_key(d.compositions, t),
    ensures
        expr_satisfied(comp_at(d.compositions, t), masked(d.units, m).to_set()),
{
    let sub = masked(d.units, m);
    let active = sub.to_set();
    let idx = choose|idx: int| 0 <= idx < combo_spec(d, m).len() && combo_spec(d, m)[idx] == t;
    if idx < sub.len() {
        lemma_masked_subset(d.units, m);
        assert(sub[idx] == t);
        assert(d.units.contains(t));
        let w = choose|w: int|
            0 <= w < comp_keys(d.compositions).len() && comp_keys(d.compositions)[w] == t;
        assert(d.compositions[w].0 == t);
        assert(false);
    } else {
        assert(implied(d.compositions, active)[idx - sub.len()] == t);
        assert(implied(d.compositions, active).contains(t));
        lemma_implication_sound(d.compositions, active, t);
        let w = choose|w: int|
            0 <= w < d.compositions.len() && (#[trigger] d.compositions[w]).0 == t
                && expr_satisfied(d.compositions[w].1, active);
        lemma_comp_at(d.compositions, w);
        assert(comp_at(d.compositions, t) == d.compositions[w].1);
    }
}

impl FeatureDeclarations {
    /// Builds the subset of `self.units` selected by the bits of `mask`.
    fn mask_subset(&self, mask: u64) -> (r: Vec<FeatureName>)
        ensures
            name_seq(r@) == masked(self@.units, mask as nat),
    {
        let ghost uv = self@.units;
        let mut r: Vec<FeatureName> = Vec::new();
        let mut cursor: u64 = mask;
        let mut idx: usize = 0;
        proof {
            assert(uv.take(0) =~= Seq::<Seq<char>>::empty());
            assert(name_seq(r@) =~= masked(uv.take(0), mask as nat));
            vstd::arithmetic::power2::lemma2_to64();
            assert(cursor as nat == mask as nat / vstd::arithmetic::power2::pow2(0));
        }
        while idx < self.units.len()
            invariant
                idx <= self.units@.len(),
                uv == self@.units,
                cursor as nat == mask as nat / vstd::arithmetic::power2::pow2(idx as nat),
                name_seq(r@) == masked(uv.take(idx as int), mask as nat),
            decreases self.units@.len() - idx,
        {
            proof {
                assert(uv.take(idx + 1).drop_last() =~= uv.take(idx as int));
                assert(uv.take(idx + 1).last() == uv[idx as int]);
                assert(uv.take(idx + 1).len() == idx + 1);
            }
            if cursor % 2 == 1 {
                let ghost r0 = name_seq(r@);
                r.push(self.units[idx].clone());
                assert(name_seq(r@) =~= r0.push(uv[idx as int]));
                assert(name_seq(r@) =~= masked(uv.take(idx + 1), mask as nat));
            } else {
                assert(name_seq(r@) =~= masked(uv.take(idx + 1), mask as nat));
            }
            cursor = cursor / 2;
            proof {
                vstd::arithmetic::power2::lemma_pow2_adds(idx as nat, 1);
                vstd::arithmetic::power2::lemma2_to64();
                vstd::arithmetic::power2::lemma_pow2_pos(idx as nat);
                vstd::arithmetic::div_mod::lemma_div_denominator(
                    mask as int,
                    vstd::arithmetic::power2::pow2(idx as nat) as int,
                    2,
                );
                assert(cursor as nat == mask as nat / vstd::arithmetic::power2::pow2(
                    (idx + 1) as nat,
                ));
            }
            idx += 1;
        }
        proof {
            assert(uv.take(uv.len() as int) =~= uv);
        }
        r
    }

    /// Enumerates every combination: for each non-empty subset of the
    /// atomic features, the subset followed by every composite feature
    /// whose canonical definition it satisfies. There are exactly
    /// `2^U - 1` combinations for `U` atomic features.
    pub fn combinations(&self) -> (r: Vec<Vec<FeatureName>>)
        requires
            decls_wf(self@),
            self.units@.len() < 64,
        ensures
            r@.len() == vstd::arithmetic::power2::pow2(self.units@.len() as nat) - 1,
            forall|j: int| 0 <= j < r@.len() ==> name_seq(#[trigger] r@[j]@) == combo_spec(
                self@,
                (j + 1) as nat,
            ),
    {
        let ghost d = self@;
        let n = self.units.len();
        let mut total: u64 = 1;
        let mut e: usize = 0;
        proof {
            vstd::arithmetic::power2::lemma2_to64();
        }
        while e < n
            invariant
                e <= n < 64,
                n == self.units@.len(),
                total as nat == vstd::arithmetic::power2::pow2(e as nat),
            decreases n - e,
        {
            proof {
                vstd::arithmetic::power2::lemma_pow2_adds(e as nat, 1);
                vstd::arithmetic::power2::lemma2_to64();
                vstd::arithmetic::power2::lemma_pow2_strictly_increases((e + 1) as nat, 64);
            }
            total = total * 2;
            e += 1;
        }
        let mut r: Vec<Vec<FeatureName>> = Vec::new();
        let mut mask: u64 = 1;
        proof {
            if self.units@.len() > 0 {
                vstd::arithmetic::power2::lemma_pow2_strictly_increases(
                    0,
                    self.units@.len() as nat,
                );
            }
            vstd::arithmetic::power2::lemma2_to64();
        }
        while mask < total
            invariant
                d == self@,
                decls_wf(d),
                1 <= mask <= total,
                total as nat == vstd::arithmetic::power2::pow2(self.units@.len() as nat),
                r@.len() == mask - 1,
                forall|j: int| 0 <= j < r@.len() ==> name_seq(#[trigger] r@[j]@) == combo_spec(
                    d,
                    (j + 1) as nat,
                ),
            decreases total - mask,
        {
            let sub = self.mask_subset(mask);
            let ghost active = name_seq(sub@).to_set();
            let mut combo = clone_names(&sub);
            let ghost cv = d.compositions;
            let mut c: usize = 0;
            proof {
                assert(cv.take(0) =~= Seq::<(Seq<char>, ExprView)>::empty());
                assert(name_seq(combo@) =~= masked(d.units, mask as nat) + implied(
                    cv.take(0),
                    active,
                ));
            }
            while c < self.compositions.len()
                invariant
                    c <= self.compositions@.len(),
                    d == self@,
                    cv == d.compositions,
                    active == name_seq(sub@).to_set(),
                    name_seq(sub@) == masked(d.units, mask as nat),
                    name_seq(combo@) == masked(d.units, mask as nat) + implied(
                        cv.take(c as int),
                        active,
                    ),
                decreases self.compositions@.len() - c,
            {
                proof {
                    assert(cv.take(c + 1).drop_last() =~= cv.take(c as int));
                    assert(cv.take(c + 1).last() == cv[c as int]);
                }
                let entry = &self.compositions[c];
                assert(entry.1@ == cv[c as int].1 && entry.0@ == cv[c as int].0);
                if entry.1.will_enabled(&sub) {
                    let ghost c0 = name_seq(combo@);
                    combo.push(entry.0.clone());
                    assert(name_seq(combo@) =~= c0.push(cv[c as int].0));
                    assert(name_seq(combo@) =~= masked(d.units, mask as nat) + implied(
                        cv.take(c + 1),
                        active,
                    ));
                } else {
                    assert(name_seq(combo@) =~= masked(d.units, mask as nat) + implied(
                        cv.take(c + 1),
                        active,
                    ));
                }
                c += 1;
            }
            proof {
                assert(cv.take(cv.len() as int) =~= cv);
                assert(name_seq(combo@) == combo_spec(d, mask as nat));
            }
            r.push(combo);
            mask = mask + 1;
        }
        r
    }
}

} // verus!
