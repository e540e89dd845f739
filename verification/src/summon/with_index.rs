//! The stable feature index: a zero-based ordinal per feature name, used to
//! derive deterministic, collision-free interface identifiers, and the
//! generation of capability interfaces from a field partition.

use vstd::prelude::*;
use vstd::string::StringExecFns;
use crate::parse::{FeatureName, name_seq, distinct_texts, find_name};
use crate::summon::{Field, FieldView, fields_view, groups_view, SummonError};

verus! {

/// The decimal digit character for a value below ten.
pub open spec fn digit_char(d: nat) -> char {
    if d == 0 {
        '0'
    } else if d == 1 {
        '1'
    } else if d == 2 {
        '2'
    } else if d == 3 {
        '3'
    } else if d == 4 {
        '4'
    } else if d == 5 {
        '5'
    } else if d == 6 {
        '6'
    } else if d == 7 {
        '7'
    } else if d == 8 {
        '8'
    } else {
        '9'
    }
}

/// The decimal digits of `n`, most significant first, with no leading zero
/// except for `n == 0` itself.
pub open spec fn dec_rep(n: nat) -> Seq<char>
    decreases n,
{
    if n < 10 {
        seq![digit_char(n)]
    } else {
        dec_rep(n / 10).push(digit_char(n % 10))
    }
}

/// The generated identifier for the feature with ordinal `i`.
pub open spec fn ordinal_ident(i: nat) -> Seq<char> {
    seq!['F'] + dec_rep(i)
}

/// Any position of `t` in `s`; with distinct texts, the position.
pub open spec fn index_in(s: Seq<Seq<char>>, t: Seq<char>) -> int {
    choose|i: int| 0 <= i < s.len() && s[i] == t
}

/// The decimal digit string for a value below ten.
fn digit_str(d: usize) -> (r: &'static str)
    requires
        d < 10,
    ensures
        r@ == seq![digit_char(d as nat)],
{
    if d == 0 {
        proof {
            reveal_strlit("0");
        }
        assert("0"@ =~= seq![digit_char(0)]);
        "0"
    } else if d == 1 {
        proof {
            reveal_strlit("1");
        }
        assert("1"@ =~= seq![digit_char(1)]);
        "1"
    } else if d == 2 {
        proof {
            reveal_strlit("2");
        }
        assert("2"@ =~= seq![digit_char(2)]);
        "2"
    } else if d == 3 {
        proof {
            reveal_strlit("3");
        }
        assert("3"@ =~= seq![digit_char(3)]);
        "3"
    } else if d == 4 {
        proof {
            reveal_strlit("4");
        }
        assert("4"@ =~= seq![digit_char(4)]);
        "4"
    } else if d == 5 {
        proof {
            reveal_strlit("5");
        }
        assert("5"@ =~= seq![digit_char(5)]);
        "5"
    } else if d == 6 {
        proof {
            reveal_strlit("6");
        }
        assert("6"@ =~= seq![digit_char(6)]);
        "6"
    } else if d == 7 {
        proof {
            reveal_strlit("7");
        }
        assert("7"@ =~= seq![digit_char(7)]);
        "7"
    } else if d == 8 {
        proof {
            reveal_strlit("8");
        }
        assert("8"@ =~= seq![digit_char(8)]);
        "8"
    } else {
        proof {
            reveal_strlit("9");
        }
        assert("9"@ =~= seq![digit_char(9)]);
        "9"
    }
}

/// Renders `n` in decimal.
fn dec_string(n: usize) -> (s: String)
    ensures
        s@ == dec_rep(n as nat),
    decreases n,
{
    if n < 10 {
        digit_str(n).to_owned()
    } else {
        let q = dec_string(n / 10);
        let s = q.concat(digit_str(n % 10));
        assert(s@ =~= dec_rep(n as nat));
        s
    }
}

/// One generated accessor pair: a getter named like the field, a mutable
/// accessor named `mut_` plus the field name, both of the field's type.
#[derive(Debug)]
pub struct Accessor {
    pub getter: String,
    pub mutator: String,
    pub ty: String,
}

/// The mathematical content of an accessor pair.
#[verifier::ext_equal]
pub ghost struct AccessorView {
    pub getter: Seq<char>,
    pub mutator: Seq<char>,
    pub ty: Seq<char>,
}

impl View for Accessor {
    type V = AccessorView;

    open spec fn view(&self) -> AccessorView {
        AccessorView { getter: self.getter@, mutator: self.mutator@, ty: self.ty@ }
    }
}

/// The accessor pair generated for a field.
pub open spec fn accessor_of(f: FieldView) -> AccessorView {
    AccessorView { getter: f.name, mutator: seq!['m', 'u', 't', '_'] + f.name, ty: f.ty }
}

/// The accessor pairs generated for a field list, in order.
pub open spec fn accessors_spec(fs: Seq<FieldView>) -> Seq<AccessorView> {
    fs.map_values(|f: FieldView| accessor_of(f))
}

/// One generated capability interface: its identifier and its accessors.
#[derive(Debug)]
pub struct Interface {
    pub name: String,
    pub accessors: Vec<Accessor>,
}

/// The mathematical content of an interface.
#[verifier::ext_equal]
pub ghost struct InterfaceView {
    pub name: Seq<char>,
    pub accessors: Seq<AccessorView>,
}

impl View for Interface {
    type V = InterfaceView;

    open spec fn view(&self) -> InterfaceView {
        InterfaceView {
            name: self.name@,
            accessors: self.accessors@.map_values(|a: Accessor| a@),
        }
    }
}

/// The identifier of the base interface for the common fields.
pub open spec fn common_ident() -> Seq<char> {
    seq!['C', 'o', 'm', 'm', 'o', 'n']
}

/// Generates the getter/mutable-accessor pair for every field, in order.
fn summon_getter(fields: &Vec<Field>) -> (r: Vec<Accessor>)
    ensures
        r@.map_values(|a: Accessor| a@) == accessors_spec(fields_view(fields@)),
{
    let ghost fv = fields_view(fields@);
    let mut r: Vec<Accessor> = Vec::new();
    let mut i: usize = 0;
    proof {
        assert(r@.map_values(|a: Accessor| a@) =~= accessors_spec(fv.take(0)));
    }
    while i < fields.len()
        invariant
            i <= fields@.len(),
            fv == fields_view(fields@),
            r@.map_values(|a: Accessor| a@) == accessors_spec(fv.take(i as int)),
        decreases fields@.len() - i,
    {
        let field = &fields[i];
        let getter = field.name.clone();
        let mutator = "mut_".to_owned().concat(field.name.as_str());
        let ty = field.ty.clone();
        proof {
            reveal_strlit("mut_");
            assert(mutator@ =~= seq!['m', 'u', 't', '_'] + fv[i as int].name);
        }
        let acc = Accessor { getter, mutator, ty };
        let ghost r0 = r@.map_values(|a: Accessor| a@);
        let ghost av = acc@;
        r.push(acc);
        proof {
            assert(r@.map_values(|a: Accessor| a@) =~= r0.push(av));
            assert(av =~= accessor_of(fv[i as int]));
            assert(accessors_spec(fv.take(i + 1)) =~= accessors_spec(fv.take(i as int)).push(
                accessor_of(fv[i as int]),
            ));
        }
        i += 1;
    }
    proof {
        assert(fv.take(fv.len() as int) =~= fv);
    }
    r
}

/// The stable feature index: every known feature name in declaration
/// order, its ordinal being its position.
pub struct WithIndex {
    pub data: Vec<FeatureName>,
}

impl View for WithIndex {
    type V = Seq<Seq<char>>;

    open spec fn view(&self) -> Seq<Seq<char>> {
        name_seq(self.data@)
    }
}

impl WithIndex {
    /// Builds the index from the full ordered feature name sequence.
    pub fn new(data: Vec<FeatureName>) -> (r: Self)
        ensures
            r@ == name_seq(data@),
    {
        WithIndex { data }
    }

    /// The ordinal of a feature name: its first position in the index.
    pub fn query(&self, name: &FeatureName) -> (r: Option<usize>)
        ensures
            match r {
                Some(i) => i < self@.len() && self@[i as int] == name@ && forall|j: int|
                    0 <= j < i ==> self@[j] != name@,
                None => !self@.contains(name@),
            },
    {
        let r = find_name(&self.data, name);
        proof {
            match r {
                Some(i) => {
                    assert(self@[i as int] == self.data@[i as int]@);
                    assert(forall|j: int| 0 <= j < i ==> self@[j] == self.data@[j]@);
                },
                None => {},
            }
        }
        r
    }

    /// The generated identifier for a feature: `F` followed by the
    /// feature's ordinal in decimal. An unknown name is the one error.
    pub fn query_as_ident(&self, name: &FeatureName) -> (r: Result<String, SummonError>)
        requires
            distinct_texts(self@),
        ensures
            match r {
                Ok(s) => self@.contains(name@) && s@ == ordinal_ident(
                    index_in(self@, name@) as nat,
                ),
                Err(e) => !self@.contains(name@) && (e matches SummonError::UnknownFeature {
                    name: n,
                } && n@ == name@ && n.span == name.span),
            },
    {
        match self.query(name) {
            Some(i) => {
                proof {
                    assert(self@.contains(name@));
                    let w = index_in(self@, name@);
                    assert(0 <= w < self@.len() && self@[w] == name@);
                    if w != i as int {
                        assert(false);
                    }
                }
                let s = "F".to_owned().concat(dec_string(i).as_str());
                proof {
                    reveal_strlit("F");
                    assert(s@ =~= ordinal_ident(i as nat));
                }
                Ok(s)
            },
            None => Err(SummonError::UnknownFeature { name: name.clone() }),
        }
    }

    /// Generates the base interface for the common fields plus one
    /// interface per feature group, each named from the feature's ordinal
    /// and exposing an accessor pair per field, in group order. Fails on
    /// the first group whose feature the index does not know.
    pub fn summon_with(
        &self,
        common_fields: &Vec<Field>,
        featured_fields: &Vec<(FeatureName, Vec<Field>)>,
    ) -> (r: Result<Vec<Interface>, SummonError>)
        requires
            distinct_texts(self@),
        ensures
            match r {
                Ok(ifaces) => ifaces@.len() == 1 + groups_view(featured_fields@).len()
                    && ifaces@[0]@ == (InterfaceView {
                    name: common_ident(),
                    accessors: accessors_spec(fields_view(common_fields@)),
                }) && forall|g: int|
                    0 <= g < groups_view(featured_fields@).len() ==> self@.contains(
                        (#[trigger] groups_view(featured_fields@)[g]).0,
                    ) && ifaces@[g + 1]@ == (InterfaceView {
                        name: ordinal_ident(
                            index_in(self@, groups_view(featured_fields@)[g].0) as nat,
                        ),
                        accessors: accessors_spec(groups_view(featured_fields@)[g].1),
                    }),
                Err(e) => exists|g: int|
                    0 <= g < groups_view(featured_fields@).len() && !self@.contains(
                        (#[trigger] groups_view(featured_fields@)[g]).0,
                    ) && (forall|g2: int|
                        0 <= g2 < g ==> self@.contains(groups_view(featured_fields@)[g2].0)) && (
                    e matches SummonError::UnknownFeature { name: n } && n@ == groups_view(
                        featured_fields@,
                    )[g].0),
            },
    {
        let ghost gs = groups_view(featured_fields@);
        let common_methods = summon_getter(common_fields);
        let mut ifaces: Vec<Interface> = Vec::new();
        let base = Interface { name: "Common".to_owned(), accessors: common_methods };
        proof {
            reveal_strlit("Common");
            assert(base@.name =~= common_ident());
            assert(base@ =~= (InterfaceView {
                name: common_ident(),
                accessors: accessors_spec(fields_view(common_fields@)),
            }));
        }
        ifaces.push(base);
        let mut g: usize = 0;
        while g < featured_fields.len()
            invariant
                g <= featured_fields@.len(),
                gs == groups_view(featured_fields@),
                distinct_texts(self@),
                ifaces@.len() == 1 + g,
                ifaces@[0]@ == (InterfaceView {
                    name: common_ident(),
                    accessors: accessors_spec(fields_view(common_fields@)),
                }),
                forall|g2: int| 0 <= g2 < g ==> self@.contains((#[trigger] gs[g2]).0)
                    && ifaces@[g2 + 1]@ == (InterfaceView {
                    name: ordinal_ident(index_in(self@, gs[g2].0) as nat),
                    accessors: accessors_spec(gs[g2].1),
                }),
            decreases featured_fields@.len() - g,
        {
            let entry = &featured_fields[g];
            assert(entry.0@ == gs[g as int].0);
            match self.query_as_ident(&entry.0) {
                Ok(ident) => {
                    let methods = summon_getter(&entry.1);
                    let iface = Interface { name: ident, accessors: methods };
                    proof {
                        assert(fields_view(entry.1@) == gs[g as int].1);
                        assert(iface@ =~= (InterfaceView {
                            name: ordinal_ident(index_in(self@, gs[g as int].0) as nat),
                            accessors: accessors_spec(gs[g as int].1),
                        }));
                    }
                    ifaces.push(iface);
                },
                Err(e) => {
                    return Err(e);
                },
            }
            g += 1;
        }
        Ok(ifaces)
    }
}

} // verus!
