//! The view/interface generator: partitioning a tagged field list into
//! common and per-feature groups, and producing one capability interface
//! per feature.

pub mod with_index;

use vstd::prelude::*;
use crate::parse::{FeatureName, FeatureDeclarations, DeclsView, name_seq, comp_keys, decls_wf, distinct_texts, clone_names};
use crate::summon::with_index::{WithIndex, Interface, InterfaceView, common_ident, ordinal_ident, index_in, accessors_spec};

verus! {

/// Generation fails only one way: an interface was asked for a feature
/// name that the feature index does not know; the name and its span are
/// carried for diagnostics.
#[derive(Debug)]
pub enum SummonError {
    UnknownFeature { name: FeatureName },
}

/// A named, typed field, optionally tagged with the one feature it belongs
/// to; an untagged field is common to every view.
#[derive(Debug)]
pub struct Field {
    pub name: String,
    pub ty: String,
    pub feature: Option<FeatureName>,
}

/// The mathematical content of a field: its name and type texts and its
/// optional feature tag text.
#[verifier::ext_equal]
pub ghost struct FieldView {
    pub name: Seq<char>,
    pub ty: Seq<char>,
    pub feature: Option<Seq<char>>,
}

impl View for Field {
    type V = FieldView;

    open spec fn view(&self) -> FieldView {
        FieldView {
            name: self.name@,
            ty: self.ty@,
            feature: match self.feature {
                Option::Some(f) => Option::Some(f@),
                Option::None => Option::None,
            },
        }
    }
}

impl Clone for Field {
    fn clone(&self) -> (r: Self)
        ensures
            r@ == self@,
    {
        let r = Field {
            name: self.name.clone(),
            ty: self.ty.clone(),
            feature: match &self.feature {
                Option::Some(f) => Option::Some(f.clone()),
                Option::None => Option::None,
            },
        };
        assert(r@ =~= self@);
        r
    }
}

/// The views of a field list.
pub open spec fn fields_view(s: Seq<Field>) -> Seq<FieldView> {
    s.map_values(|f: Field| f@)
}

/// The views of a per-feature group list.
pub open spec fn groups_view(s: Seq<(FeatureName, Vec<Field>)>) -> Seq<(Seq<char>, Seq<FieldView>)> {
    s.map_values(|p: (FeatureName, Vec<Field>)| (p.0@, fields_view(p.1@)))
}

/// The key texts of a group list.
pub open spec fn group_keys(gs: Seq<(Seq<char>, Seq<FieldView>)>) -> Seq<Seq<char>> {
    gs.map_values(|p: (Seq<char>, Seq<FieldView>)| p.0)
}

/// The position of the group keyed `t`; meaningful when the keys are
/// distinct and `t` is present.
pub open spec fn group_index(gs: Seq<(Seq<char>, Seq<FieldView>)>, t: Seq<char>) -> int {
    choose|i: int| 0 <= i < gs.len() && gs[i].0 == t
}

/// The untagged fields of a list, in order.
pub open spec fn common_spec(fs: Seq<FieldView>) -> Seq<FieldView>
    decreases fs.len(),
{
    if fs.len() == 0 {
        Seq::empty()
    } else {
        common_spec(fs.drop_last()) + (if fs.last().feature is None {
            seq![fs.last()]
        } else {
            Seq::empty()
        })
    }
}

/// Adds one field to the per-feature groups: an untagged field changes
/// nothing, a tagged field joins its feature's group, which is created at
/// the end on first use.
pub open spec fn groups_add(gs: Seq<(Seq<char>, Seq<FieldView>)>, f: FieldView) -> Seq<
    (Seq<char>, Seq<FieldView>),
> {
    match f.feature {
        Option::None => gs,
        Option::Some(t) => {
            if group_keys(gs).contains(t) {
                let i = group_index(gs, t);
                gs.update(i, (t, gs[i].1.push(f)))
            } else {
                gs.push((t, seq![f]))
            }
        },
    }
}

/// The per-feature groups of a field list: feature keys in first-use
/// order, each with its fields in declaration order.
pub open spec fn groups_spec(fs: Seq<FieldView>) -> Seq<(Seq<char>, Seq<FieldView>)>
    decreases fs.len(),
{
    if fs.len() == 0 {
        Seq::empty()
    } else {
        groups_add(groups_spec(fs.drop_last()), fs.last())
    }
}

/// The total number of fields the groups hold.
pub open spec fn sum_group_lens(gs: Seq<(Seq<char>, Seq<FieldView>)>) -> int
    decreases gs.len(),
{
    if gs.len() == 0 {
        0int
    } else {
        sum_group_lens(gs.drop_last()) + gs.last().1.len()
    }
}

/// Growing one group by one field grows the total by one.
proof fn lemma_sum_update_push(gs: Seq<(Seq<char>, Seq<FieldView>)>, i: int, f: FieldView)
    requires
        0 <= i < gs.len(),
    ensures
        sum_group_lens(gs.update(i, (gs[i].0, gs[i].1.push(f)))) == sum_group_lens(gs) + 1,
    decreases gs.len(),
{
    let up = gs.update(i, (gs[i].0, gs[i].1.push(f)));
    if i == gs.len() - 1 {
        assert(up.drop_last() =~= gs.drop_last());
        assert(up.last() == (gs[i].0, gs[i].1.push(f)));
    } else {
        assert(up.drop_last() =~= gs.drop_last().update(i, (gs[i].0, gs[i].1.push(f))));
        assert(gs.drop_last()[i] == gs[i]);
        lemma_sum_update_push(gs.drop_last(), i, f);
        assert(up.last() == gs.last());
    }
}

/// Partition totality: the common fields and the per-feature groups
/// together hold exactly as many fields as the original list — every field
/// lands in exactly one partition and none is dropped or duplicated.
pub proof fn lemma_partition_total(fs: Seq<FieldView>)
    ensures
        common_spec(fs).len() + sum_group_lens(groups_spec(fs)) == fs.len(),
    decreases fs.len(),
{
    if fs.len() > 0 {
        lemma_partition_total(fs.drop_last());
        let g = groups_spec(fs.drop_last());
        match fs.last().feature {
            Option::None => {},
            Option::Some(t) => {
                if group_keys(g).contains(t) {
                    let w = choose|w: int| 0 <= w < group_keys(g).len() && group_keys(g)[w] == t;
                    assert(g[w].0 == t);
                    let i = group_index(g, t);
                    assert(0 <= i < g.len() && g[i].0 == t);
                    lemma_sum_update_push(g, i, fs.last());
                } else {
                    assert(groups_spec(fs).drop_last() =~= g);
                    assert(sum_group_lens(groups_spec(fs)) == sum_group_lens(g) + 1);
                }
            },
        }
    }
}

/// Every field the groups hold, flattened in group order.
pub open spec fn groups_flat(gs: Seq<(Seq<char>, Seq<FieldView>)>) -> Seq<FieldView>
    decreases gs.len(),
{
    if gs.len() == 0 {
        Seq::empty()
    } else {
        groups_flat(gs.drop_last()) + gs.last().1
    }
}

/// Growing one group by a field adds exactly that field to the flattened
/// multiset.
proof fn lemma_flat_update_push(gs: Seq<(Seq<char>, Seq<FieldView>)>, i: int, f: FieldView)
    requires
        0 <= i < gs.len(),
    ensures
        groups_flat(gs.update(i, (gs[i].0, gs[i].1.push(f)))).to_multiset() == groups_flat(
            gs,
        ).to_multiset().insert(f),
    decreases gs.len(),
{
    broadcast use vstd::seq_lib::group_to_multiset_ensures;

    let up = gs.update(i, (gs[i].0, gs[i].1.push(f)));
    if i == gs.len() - 1 {
        assert(up.drop_last() =~= gs.drop_last());
        assert(up.last() == (gs[i].0, gs[i].1.push(f)));
        assert(groups_flat(up) =~= (groups_flat(gs.drop_last()) + gs[i].1).push(f));
        assert(groups_flat(gs) =~= groups_flat(gs.drop_last()) + gs[i].1);
        assert(groups_flat(up).to_multiset() =~= groups_flat(gs).to_multiset().insert(f));
    } else {
        assert(up.drop_last() =~= gs.drop_last().update(i, (gs[i].0, gs[i].1.push(f))));
        assert(gs.drop_last()[i] == gs[i]);
        lemma_flat_update_push(gs.drop_last(), i, f);
        assert(up.last() == gs.last());
        let a = groups_flat(gs.drop_last());
        let b = gs.last().1;
        vstd::seq_lib::lemma_multiset_commutative(groups_flat(up.drop_last()), b);
        vstd::seq_lib::lemma_multiset_commutative(a, b);
        assert(groups_flat(up).to_multiset() =~= groups_flat(gs).to_multiset().insert(f));
    }
}

/// No field appears twice: the common fields and the flattened per-feature
/// groups together are, as a multiset, exactly the original field list.
pub proof fn lemma_partition_no_duplication(fs: Seq<FieldView>)
    ensures
        common_spec(fs).to_multiset().add(groups_flat(groups_spec(fs)).to_multiset())
            == fs.to_multiset(),
    decreases fs.len(),
{
    broadcast use vstd::seq_lib::group_to_multiset_ensures;

    if fs.len() == 0 {
        assert(common_spec(fs).to_multiset().add(groups_flat(groups_spec(fs)).to_multiset())
            =~= fs.to_multiset());
    } else {
        lemma_partition_no_duplication(fs.drop_last());
        let g = groups_spec(fs.drop_last());
        let last = fs.last();
        assert(fs =~= fs.drop_last().push(last));
        assert(fs.to_multiset() =~= fs.drop_last().to_multiset().insert(last));
        match last.feature {
            Option::None => {
                assert(common_spec(fs) =~= common_spec(fs.drop_last()).push(last));
                assert(common_spec(fs).to_multiset() =~= common_spec(
                    fs.drop_last(),
                ).to_multiset().insert(last));
                assert(common_spec(fs).to_multiset().add(
                    groups_flat(groups_spec(fs)).to_multiset(),
                ) =~= fs.to_multiset());
            },
            Option::Some(t) => {
                assert(common_spec(fs) =~= common_spec(fs.drop_last()));
                if group_keys(g).contains(t) {
                    let w = choose|w: int| 0 <= w < group_keys(g).len() && group_keys(g)[w] == t;
                    assert(g[w].0 == t);
                    let i = group_index(g, t);
                    assert(0 <= i < g.len() && g[i].0 == t);
                    lemma_flat_update_push(g, i, last);
                    assert(common_spec(fs).to_multiset().add(
                        groups_flat(groups_spec(fs)).to_multiset(),
                    ) =~= fs.to_multiset());
                } else {
                    assert(groups_spec(fs).drop_last() =~= g);
                    assert(groups_flat(groups_spec(fs)) =~= groups_flat(g).push(last));
                    assert(groups_flat(groups_spec(fs)).to_multiset() =~= groups_flat(
                        g,
                    ).to_multiset().insert(last));
                    assert(common_spec(fs).to_multiset().add(
                        groups_flat(groups_spec(fs)).to_multiset(),
                    ) =~= fs.to_multiset());
                }
            },
        }
    }
}

/// The group keys stay distinct as fields are added.
proof fn lemma_groups_distinct(fs: Seq<FieldView>)
    ensures
        forall|a: int, b: int|
            0 <= a < b < groups_spec(fs).len() ==> (#[trigger] groups_spec(fs)[a]).0 != (
            #[trigger] groups_spec(fs)[b]).0,
    decreases fs.len(),
{
    if fs.len() > 0 {
        lemma_groups_distinct(fs.drop_last());
        let g = groups_spec(fs.drop_last());
        let cur = groups_spec(fs);
        match fs.last().feature {
            Option::None => {},
            Option::Some(t) => {
                if group_keys(g).contains(t) {
                    let i = group_index(g, t);
                    assert(forall|a: int| 0 <= a < g.len() && a != i ==> cur[a] == g[a]);
                    assert(cur[i].0 == g[i].0);
                } else {
                    assert forall|a: int, b: int| 0 <= a < b < cur.len() implies (
                    #[trigger] cur[a]).0 != (#[trigger] cur[b]).0 by {
                        if b == cur.len() - 1 {
                            assert(cur[b].0 == t);
                            assert(cur[a] == g[a]);
                            assert(group_keys(g)[a] == g[a].0);
                            assert(!group_keys(g).contains(t));
                        } else {
                            assert(cur[a] == g[a] && cur[b] == g[b]);
                        }
                    }
                }
            },
        }
    }
}

/// Finds the first group keyed with the text of `t`, if any.
fn find_group(groups: &Vec<(FeatureName, Vec<Field>)>, t: &FeatureName) -> (r: Option<usize>)
    ensures
        match r {
            Some(i) => i < groups@.len() && groups@[i as int].0@ == t@ && forall|j: int|
                0 <= j < i ==> groups@[j].0@ != t@,
            None => forall|j: int| 0 <= j < groups@.len() ==> groups@[j].0@ != t@,
        },
{
    let mut i: usize = 0;
    while i < groups.len()
        invariant
            i <= groups@.len(),
            forall|j: int| 0 <= j < i ==> groups@[j].0@ != t@,
        decreases groups@.len() - i,
    {
        if groups[i].0.same_name(t) {
            return Some(i);
        }
        i += 1;
    }
    None
}

/// Partitions a field list into the untagged (common) fields and one group
/// per feature tag, both in encounter order. No field is dropped,
/// duplicated, or moved between partitions.
pub fn extract_fields(fields: &Vec<Field>) -> (r: (Vec<Field>, Vec<(FeatureName, Vec<Field>)>))
    ensures
        fields_view(r.0@) == common_spec(fields_view(fields@)),
        groups_view(r.1@) == groups_spec(fields_view(fields@)),
{
    let ghost fv = fields_view(fields@);
    let mut common: Vec<Field> = Vec::new();
    let mut groups: Vec<(FeatureName, Vec<Field>)> = Vec::new();
    let mut i: usize = 0;
    proof {
        assert(fv.take(0) =~= Seq::<FieldView>::empty());
        assert(fields_view(common@) =~= common_spec(fv.take(0)));
        assert(groups_view(groups@) =~= groups_spec(fv.take(0)));
    }
    while i < fields.len()
        invariant
            i <= fields@.len(),
            fv == fields_view(fields@),
            fields_view(common@) == common_spec(fv.take(i as int)),
            groups_view(groups@) == groups_spec(fv.take(i as int)),
        decreases fields@.len() - i,
    {
        proof {
            assert(fv.take(i + 1).drop_last() =~= fv.take(i as int));
            assert(fv.take(i + 1).last() == fv[i as int]);
            assert(fv[i as int] == fields@[i as int]@);
        }
        let field = &fields[i];
        let ghost g = groups_view(groups@);
        match &field.feature {
            Option::None => {
                let ghost c0 = fields_view(common@);
                common.push(field.clone());
                assert(fields_view(common@) =~= c0.push(fv[i as int]));
                assert(fields_view(common@) =~= common_spec(fv.take(i + 1)));
            },
            Option::Some(tag) => {
                let ghost t = tag@;
                let found = find_group(&groups, tag);
                match found {
                    Option::Some(at) => {
                        proof {
                            assert(g[at as int].0 == t);
                            assert(group_keys(g)[at as int] == t);
                            assert(group_keys(g).contains(t));
                            assert(group_index(g, t) == at) by {
                                let w = group_index(g, t);
                                assert(0 <= w < g.len() && g[w].0 == t);
                                lemma_groups_distinct(fv.take(i as int));
                                if w != at {
                                    assert(false);
                                }
                            }
                        }
                        let mut entry = groups.remove(at);
                        let ghost e0 = (entry.0@, fields_view(entry.1@));
                        entry.1.push(field.clone());
                        proof {
                            assert(fields_view(entry.1@) =~= e0.1.push(fv[i as int]));
                        }
                        groups.insert(at, entry);
                        proof {
                            assert(groups_view(groups@) =~= g.update(
                                at as int,
                                (t, g[at as int].1.push(fv[i as int])),
                            ));
                            assert(groups_view(groups@) =~= groups_spec(fv.take(i + 1)));
                        }
                    },
                    Option::None => {
                        proof {
                            assert(!group_keys(g).contains(t)) by {
                                if group_keys(g).contains(t) {
                                    let w = choose|w: int|
                                        0 <= w < group_keys(g).len() && group_keys(g)[w] == t;
                                    assert(g[w].0 == t);
                                    assert(groups@[w].0@ == t);
                                }
                            }
                        }
                        let mut members: Vec<Field> = Vec::new();
                        members.push(field.clone());
                        let key = tag.clone();
                        proof {
                            assert(fields_view(members@) =~= seq![fv[i as int]]);
                        }
                        groups.push((key, members));
                        proof {
                            assert(groups_view(groups@) =~= g.push((t, seq![fv[i as int]])));
                            assert(groups_view(groups@) =~= groups_spec(fv.take(i + 1)));
                        }
                    },
                }
            },
        }
        i += 1;
    }
    proof {
        assert(fv.take(fv.len() as int) =~= fv);
    }
    (common, groups)
}

/// The full ordered feature name sequence of a declaration set: the atomic
/// features in declaration order, then the composite keys.
pub open spec fn feature_index(d: DeclsView) -> Seq<Seq<char>> {
    d.units + comp_keys(d.compositions)
}

/// Generates the capability interfaces for a declaration set and a field
/// list: the base interface for the untagged fields, then one interface
/// per feature tag in first-use order, each named from the feature's
/// ordinal in the index (atomic features first, then composites) and
/// exposing an accessor pair per tagged field. Fails on the first tag that
/// names no declared feature. The contract pins the result as a function
/// of the declaration set and the field list alone, so two runs on equal
/// inputs produce identical naming and accessor ordering.
pub fn summon(declarations: &FeatureDeclarations, fields: &Vec<Field>) -> (r: Result<
    Vec<Interface>,
    SummonError,
>)
    requires
        decls_wf(declarations@),
    ensures
        match r {
            Ok(ifaces) => ifaces@.len() == 1 + groups_spec(fields_view(fields@)).len()
                && ifaces@[0]@ == (InterfaceView {
                name: common_ident(),
                accessors: accessors_spec(common_spec(fields_view(fields@))),
            }) && forall|g: int|
                0 <= g < groups_spec(fields_view(fields@)).len() ==> feature_index(
                    declarations@,
                ).contains((#[trigger] groups_spec(fields_view(fields@))[g]).0) && ifaces@[g
                + 1]@ == (InterfaceView {
                    name: ordinal_ident(
                        index_in(
                            feature_index(declarations@),
                            groups_spec(fields_view(fields@))[g].0,
                        ) as nat,
                    ),
                    accessors: accessors_spec(groups_spec(fields_view(fields@))[g].1),
                }),
            Err(e) => exists|g: int|
                0 <= g < groups_spec(fields_view(fields@)).len() && !feature_index(
                    declarations@,
                ).contains((#[trigger] groups_spec(fields_view(fields@))[g]).0) && (forall|g2: int|
                    0 <= g2 < g ==> feature_index(declarations@).contains(
                        groups_spec(fields_view(fields@))[g2].0,
                    )) && (e matches SummonError::UnknownFeature { name: n } && n@ == groups_spec(
                    fields_view(fields@),
                )[g].0),
        },
{
    let ghost d = declarations@;
    let (common, groups) = extract_fields(fields);
    let mut names = clone_names(&declarations.units);
    let mut i: usize = 0;
    proof {
        assert(comp_keys(d.compositions).take(0) =~= Seq::<Seq<char>>::empty());
        assert(name_seq(names@) =~= d.units + comp_keys(d.compositions).take(0));
    }
    while i < declarations.compositions.len()
        invariant
            i <= declarations.compositions@.len(),
            d == declarations@,
            name_seq(names@) == d.units + comp_keys(d.compositions).take(i as int),
        decreases declarations.compositions@.len() - i,
    {
        let ghost n0 = name_seq(names@);
        names.push(declarations.compositions[i].0.clone());
        proof {
            assert(name_seq(names@) =~= n0.push(d.compositions[i as int].0));
            assert(comp_keys(d.compositions).take(i + 1) =~= comp_keys(d.compositions).take(
                i as int,
            ).push(d.compositions[i as int].0));
            assert(name_seq(names@) =~= d.units + comp_keys(d.compositions).take(i + 1));
        }
        i += 1;
    }
    proof {
        assert(comp_keys(d.compositions).take(comp_keys(d.compositions).len() as int)
            =~= comp_keys(d.compositions));
        assert(name_seq(names@) == feature_index(d));
    }
    let index = WithIndex::new(names);
    proof {
        let fi = feature_index(d);
        let ul = d.units.len() as int;
        assert(distinct_texts(fi)) by {
            assert forall|a: int, b: int| 0 <= a < b < fi.len() implies fi[a] != fi[b] by {
                if a < ul && b < ul {
                    assert(fi[a] == d.units[a] && fi[b] == d.units[b]);
                } else if a >= ul && b >= ul {
                    assert(fi[a] == comp_keys(d.compositions)[a - ul]);
                    assert(fi[b] == comp_keys(d.compositions)[b - ul]);
                } else {
                    assert(fi[a] == d.units[a]);
                    assert(fi[b] == comp_keys(d.compositions)[b - ul]);
                    assert(d.compositions[b - ul].0 == fi[b]);
                    if fi[a] == fi[b] {
                        assert(d.units.contains(d.compositions[b - ul].0));
                        assert(false);
                    }
                }
            }
        }
    }
    index.summon_with(&common, &groups)
}

} // verus!
