//! The full pipeline: tokenize, resolve and validate a raw argument
//! sequence against a command model, yielding a typed invocation or the
//! aggregated set of diagnostics.

use crate::model::{ArgSpec, CommandSpec};
use crate::resolve::{diag_views, lookup_bind, spec_resolve, DiagKind, DiagV, Diagnostic};
use crate::token::{tokenize, tokens_of_args, views_of};
use crate::validate::{
    chain_specs, coerce_bind, coerce_text, entry_for, lemma_validate_defaults_overridden,
    lemma_validate_names_declared, validate_chain, validate_from, validate_path, value_views,
    TypedV, TypedValue, ValueEntry,
};
use vstd::prelude::*;

verus! {

/// The mathematical form of an invocation.
pub struct InvocationV {
    pub chain: Seq<Seq<char>>,
    pub values: Seq<(Seq<char>, TypedV)>,
}

/// A validated, typed invocation: the selected command chain (root name
/// first) and the typed value map, in declaration order.
#[derive(Debug)]
pub struct Invocation {
    pub chain: Vec<String>,
    pub values: Vec<ValueEntry>,
}

impl View for Invocation {
    type V = InvocationV;

    open spec fn view(&self) -> InvocationV {
        InvocationV { chain: views_of(self.chain@), values: value_views(self.values@) }
    }
}

proof fn lemma_entry_for_at(vals: Seq<(Seq<char>, TypedV)>, name: Seq<char>, i: int)
    requires
        0 <= i <= vals.len(),
        forall|k: int| 0 <= k < i ==> (#[trigger] vals[k]).0 != name,
        i == vals.len() || vals[i].0 == name,
    ensures
        entry_for(vals, name) == (if i < vals.len() {
            Some(vals[i].1)
        } else {
            None
        }),
    decreases i, vals.len(),
{
    if vals.len() == 0 {
    } else if i == 0 {
    } else {
        assert(vals[0].0 != name);
        lemma_entry_for_at(vals.drop_first(), name, i - 1);
    }
}

impl Invocation {
    /// The typed value bound under `name`: that of the first entry keyed
    /// `name`, or nothing when the invocation holds no such binding.
    pub fn value_of(&self, name: &String) -> (r: Option<&TypedValue>)
        ensures
            match r {
                Some(v) => entry_for(self@.values, name@) == Some(v@),
                None => entry_for(self@.values, name@) is None,
            },
    {
        let n = self.values.len();
        for i in 0..n
            invariant
                n == self.values@.len(),
                forall|k: int| 0 <= k < i ==> (#[trigger] self@.values[k]).0 != name@,
        {
            proof {
                assert(self@.values[i as int].0 == self.values@[i as int].name@);
            }
            if self.values[i].name == *name {
                proof {
                    lemma_entry_for_at(self@.values, name@, i as int);
                }
                return Some(&self.values[i].value);
            }
        }
        proof {
            lemma_entry_for_at(self@.values, name@, n as int);
        }
        None
    }
}

/// What parsing a raw argument sequence against a command model yields:
/// the resolver runs over the token stream, the validator checks the
/// bindings against every declaration along the selected command path,
/// root to leaf, and the parse succeeds exactly when neither stage
/// produced a diagnostic.
pub open spec fn spec_parse(root: CommandSpec, args: Seq<Seq<char>>) -> Result<
    InvocationV,
    Seq<DiagV>,
> {
    let st = spec_resolve(tokens_of_args(args), root);
    let vo = validate_chain(st.cmds, st.binds);
    let all = st.diags + vo.1;
    if all.len() == 0 {
        Ok(InvocationV { chain: st.chain, values: vo.0 })
    } else {
        Err(all)
    }
}

/// Parses raw arguments against the model rooted at `root`.  Returns the
/// typed invocation exactly when no stage found a problem; otherwise the
/// non-empty aggregated diagnostics, resolver findings first.
pub fn parse(root: &CommandSpec, args: &Vec<String>) -> (r: Result<Invocation, Vec<Diagnostic>>)
    ensures
        ({
            let sp = spec_parse(*root, views_of(args@));
            match r {
                Ok(inv) => sp == Ok::<InvocationV, Seq<DiagV>>(inv@),
                Err(ds) => diag_views(ds@).len() > 0 && sp == Err::<InvocationV, Seq<DiagV>>(
                    diag_views(ds@),
                ),
            }
        }),
{
    let tokens = tokenize(args);
    let (resolution, path) = crate::resolve::resolve(root, &tokens);
    let (values, mut vdiags) = validate_path(&path, &resolution.bindings);
    let mut diags = resolution.diagnostics;
    let ghost rdiags = diag_views(diags@);
    let ghost extra = diag_views(vdiags@);
    diags.append(&mut vdiags);
    proof {
        assert(diag_views(diags@) =~= rdiags + extra);
    }
    if diags.len() == 0 {
        proof {
            assert(diag_views(diags@).len() == 0);
        }
        Ok(Invocation { chain: resolution.chain, values })
    } else {
        proof {
            assert(diag_views(diags@).len() > 0);
        }
        Err(diags)
    }
}

/// Law (no loss, no invention): a successful parse binds exactly the
/// declared defaults overridden by explicitly supplied values.  For any
/// declaration along the selected command path that is alone in bearing
/// its name: a supplied value appears in the invocation as its coercion;
/// an unsupplied one appears as its coerced default; one with no default
/// is absent from the map.  And every entry of the map is named by some
/// declaration of the path.
pub proof fn lemma_parse_defaults_overridden(root: CommandSpec, args: Seq<Seq<char>>, j: int)
    requires
        spec_parse(root, args) is Ok,
        ({
            let st = spec_resolve(tokens_of_args(args), root);
            let specs = chain_specs(st.cmds);
            &&& 0 <= j < specs.len()
            &&& forall|k: int|
                0 <= k < specs.len() && k != j ==> (#[trigger] specs[k]).name@ != specs[j].name@
        }),
    ensures
        ({
            let st = spec_resolve(tokens_of_args(args), root);
            let specs = chain_specs(st.cmds);
            let f = specs[j];
            let b = lookup_bind(st.binds, f.name@);
            let inv = spec_parse(root, args)->Ok_0;
            &&& (!(b is Absent) ==> entry_for(inv.values, f.name@) == coerce_bind(f, b))
            &&& ((b is Absent && f.default is Some) ==> entry_for(inv.values, f.name@)
                == coerce_text(f.vtype, f.default->0@))
            &&& ((b is Absent && f.default is None) ==> entry_for(inv.values, f.name@) is None)
            &&& forall|k: int|
                0 <= k < inv.values.len() ==> exists|m: int|
                    0 <= m < specs.len() && (#[trigger] inv.values[k]).0 == specs[m].name@
        }),
{
    let st = spec_resolve(tokens_of_args(args), root);
    let specs = chain_specs(st.cmds);
    let vo = validate_chain(st.cmds, st.binds);
    assert((st.diags + vo.1).len() == 0);
    assert(vo.1.len() == 0);
    lemma_validate_defaults_overridden(specs, 0, st.binds, j);
    lemma_validate_names_declared(specs, 0, st.binds);
}

/// Law: whatever command model declares exactly one argument, a required
/// positional, parsing an empty input yields no invocation and exactly one
/// diagnostic — the missing requirement, naming that declaration.
pub proof fn lemma_missing_required_on_empty_input(root: CommandSpec)
    requires
        root.flags@.len() == 0,
        root.positionals@.len() == 1,
        root.positionals@[0].required,
    ensures
        spec_parse(root, Seq::empty()) is Err,
        spec_parse(root, Seq::empty())->Err_0 =~= seq![
            DiagV { kind: DiagKind::MissingRequired, subject: root.positionals@[0].name@ },
        ],
{
    let st = spec_resolve(tokens_of_args(Seq::empty()), root);
    assert(tokens_of_args(Seq::empty()) =~= Seq::<crate::token::TokenV>::empty());
    assert(st.cmds == seq![root]);
    assert(seq![root].drop_first() =~= Seq::<CommandSpec>::empty());
    assert(chain_specs(Seq::<CommandSpec>::empty()) =~= Seq::<ArgSpec>::empty());
    let specs = chain_specs(st.cmds);
    assert(specs =~= root.positionals@);
    let vo = validate_chain(st.cmds, st.binds);
    assert(lookup_bind(st.binds, root.positionals@[0].name@) is Absent);
    assert(validate_from(specs, 1, st.binds).1 =~= Seq::<DiagV>::empty());
    assert(validate_from(specs, 0, st.binds).1 =~= seq![
        DiagV { kind: DiagKind::MissingRequired, subject: root.positionals@[0].name@ },
    ]);
    assert(vo.1 =~= seq![
        DiagV { kind: DiagKind::MissingRequired, subject: root.positionals@[0].name@ },
    ]);
    assert(st.diags + vo.1 =~= vo.1);
}

} // verus!
