//! The validator: checks resolved bindings against the declared types and
//! cardinality rules, applies defaults, and either produces the typed
//! value map of an invocation or aggregates every diagnostic.

use crate::model::{ArgSpec, CommandSpec, ValueType};
use crate::resolve::{
    diag_views, lookup_bind, push_diag, BindV, Binding, Bindings, DiagKind, DiagV, Diagnostic,
};
use vstd::prelude::*;

verus! {

/// The mathematical form of one typed value.
pub enum TypedV {
    Text(Seq<char>),
    Integer(i64),
    Truth(bool),
    Count(u64),
}

/// A coerced, typed value bound to a declared argument name.
#[derive(Debug, PartialEq, Eq)]
pub enum TypedValue {
    /// The raw string, for text-typed arguments.
    Text(String),
    /// A parsed signed decimal integer.
    Integer(i64),
    /// A parsed boolean, or the presence of a boolean flag.
    Truth(bool),
    /// The occurrence count of a counted flag.
    Count(u64),
}

impl View for TypedValue {
    type V = TypedV;

    open spec fn view(&self) -> TypedV {
        match self {
            TypedValue::Text(s) => TypedV::Text(s@),
            TypedValue::Integer(v) => TypedV::Integer(*v),
            TypedValue::Truth(b) => TypedV::Truth(*b),
            TypedValue::Count(n) => TypedV::Count(*n),
        }
    }
}

/// One entry of the typed value map.
#[derive(Debug)]
pub struct ValueEntry {
    pub name: String,
    pub value: TypedValue,
}

/// The views of a sequence of value entries.
pub open spec fn value_views(es: Seq<ValueEntry>) -> Seq<(Seq<char>, TypedV)> {
    es.map_values(|e: ValueEntry| (e.name@, e.value@))
}

/// Whether `c` is a decimal digit.
pub open spec fn is_digit(c: char) -> bool {
    '0' as int <= c as int <= '9' as int
}

/// Whether every character of `s` is a decimal digit.
pub open spec fn all_digits(s: Seq<char>) -> bool {
    forall|j: int| 0 <= j < s.len() ==> is_digit(#[trigger] s[j])
}

/// The value of a digit string read in base ten.
pub open spec fn digits_val(s: Seq<char>) -> int
    decreases s.len(),
{
    if s.len() == 0 {
        0
    } else {
        digits_val(s.drop_last()) * 10 + (s.last() as int - '0' as int)
    }
}

/// Decimal integer syntax: an optional leading minus or plus sign, then
/// at least one digit; the value must fit a signed 64-bit machine integer.
pub open spec fn spec_parse_int(s: Seq<char>) -> Option<i64> {
    let neg = s.len() > 0 && s[0] == '-';
    let signed = neg || (s.len() > 0 && s[0] == '+');
    let ds = if signed {
        s.drop_first()
    } else {
        s
    };
    if ds.len() == 0 || !all_digits(ds) {
        None
    } else {
        let v = digits_val(ds);
        if neg && v <= 0x8000_0000_0000_0000 {
            Some((-v) as i64)
        } else if !neg && v <= 0x7fff_ffff_ffff_ffff {
            Some(v as i64)
        } else {
            None
        }
    }
}

/// Boolean syntax: exactly the word `true` or `false`.
pub open spec fn spec_parse_truth(s: Seq<char>) -> Option<bool> {
    if s == "true"@ {
        Some(true)
    } else if s == "false"@ {
        Some(false)
    } else {
        None
    }
}

/// Coercion of a raw string to a declared value type.
pub open spec fn coerce_text(vt: ValueType, s: Seq<char>) -> Option<TypedV> {
    match vt {
        ValueType::Text => Some(TypedV::Text(s)),
        ValueType::Integer => match spec_parse_int(s) {
            Some(v) => Some(TypedV::Integer(v)),
            None => None,
        },
        ValueType::Truth => match spec_parse_truth(s) {
            Some(b) => Some(TypedV::Truth(b)),
            None => None,
        },
    }
}

/// Coercion of a binding: flag presence and counters are already typed,
/// raw values coerce by the declared type.
pub open spec fn coerce_bind(f: ArgSpec, b: BindV) -> Option<TypedV> {
    match b {
        BindV::Absent => None,
        BindV::Bool(x) => Some(TypedV::Truth(x)),
        BindV::Count(n) => Some(TypedV::Count(n)),
        BindV::Value(s) => coerce_text(f.vtype, s),
    }
}

/// The outcome for one declaration: a bound value is coerced (a failure
/// is a type mismatch); an unbound required argument is a diagnostic; an
/// unbound optional argument takes its default, coerced the same way, or
/// simply stays out of the map.
pub open spec fn validate_one(f: ArgSpec, binds: Seq<(Seq<char>, BindV)>) -> (Option<
    (Seq<char>, TypedV),
>, Option<DiagV>) {
    let b = lookup_bind(binds, f.name@);
    if !(b is Absent) {
        match coerce_bind(f, b) {
            Some(v) => (Some((f.name@, v)), None),
            None => (None, Some(DiagV { kind: DiagKind::TypeMismatch, subject: f.name@ })),
        }
    } else if f.required {
        (None, Some(DiagV { kind: DiagKind::MissingRequired, subject: f.name@ }))
    } else {
        match f.default {
            Some(d) => match coerce_text(f.vtype, d@) {
                Some(v) => (Some((f.name@, v)), None),
                None => (None, Some(DiagV { kind: DiagKind::TypeMismatch, subject: f.name@ })),
            },
            None => (None, None),
        }
    }
}

/// The typed entries and diagnostics for the declarations from `i` on,
/// in declaration order.
pub open spec fn validate_from(
    specs: Seq<ArgSpec>,
    i: int,
    binds: Seq<(Seq<char>, BindV)>,
) -> (Seq<(Seq<char>, TypedV)>, Seq<DiagV>)
    decreases specs.len() - i when 0 <= i <= specs.len()
{
    if i >= specs.len() {
        (Seq::empty(), Seq::empty())
    } else {
        let one = validate_one(specs[i], binds);
        let rest = validate_from(specs, i + 1, binds);
        (
            match one.0 {
                Some(e) => seq![e] + rest.0,
                None => rest.0,
            },
            match one.1 {
                Some(d) => seq![d] + rest.1,
                None => rest.1,
            },
        )
    }
}

/// The validator's outcome for a single command: its flags in declaration
/// order, then its positionals.
pub open spec fn validate_cmd(cmd: CommandSpec, binds: Seq<(Seq<char>, BindV)>) -> (Seq<
    (Seq<char>, TypedV),
>, Seq<DiagV>) {
    validate_from(cmd.flags@ + cmd.positionals@, 0, binds)
}

/// The declarations along a selected command path, root to leaf: each
/// command's flags, then its positionals.
pub open spec fn chain_specs(cmds: Seq<CommandSpec>) -> Seq<ArgSpec>
    decreases cmds.len(),
{
    if cmds.len() == 0 {
        Seq::empty()
    } else {
        (cmds[0].flags@ + cmds[0].positionals@) + chain_specs(cmds.drop_first())
    }
}

/// The validator's outcome for a selected command path: every declaration
/// of every command along it, root to leaf, checked against the bindings.
pub open spec fn validate_chain(cmds: Seq<CommandSpec>, binds: Seq<(Seq<char>, BindV)>) -> (Seq<
    (Seq<char>, TypedV),
>, Seq<DiagV>) {
    validate_from(chain_specs(cmds), 0, binds)
}

proof fn lemma_validate_shift(a: Seq<ArgSpec>, b: Seq<ArgSpec>, binds: Seq<(Seq<char>, BindV)>, j: int)
    requires
        0 <= j <= b.len(),
    ensures
        validate_from(a + b, a.len() + j, binds) == validate_from(b, j, binds),
    decreases b.len() - j,
{
    if j < b.len() {
        assert((a + b)[a.len() + j] == b[j]);
        lemma_validate_shift(a, b, binds, j + 1);
    }
}

proof fn lemma_validate_concat(a: Seq<ArgSpec>, b: Seq<ArgSpec>, binds: Seq<(Seq<char>, BindV)>, i: int)
    requires
        0 <= i <= a.len(),
    ensures
        validate_from(a + b, i, binds).0 == validate_from(a, i, binds).0 + validate_from(
            b,
            0,
            binds,
        ).0,
        validate_from(a + b, i, binds).1 == validate_from(a, i, binds).1 + validate_from(
            b,
            0,
            binds,
        ).1,
    decreases a.len() - i,
{
    if i < a.len() {
        assert((a + b)[i] == a[i]);
        lemma_validate_concat(a, b, binds, i + 1);
        let one = validate_one(a[i], binds);
        let ra = validate_from(a, i + 1, binds);
        let rb = validate_from(b, 0, binds);
        match one.0 {
            Some(e) => {
                assert(seq![e] + (ra.0 + rb.0) =~= (seq![e] + ra.0) + rb.0);
            },
            None => {},
        }
        match one.1 {
            Some(d) => {
                assert(seq![d] + (ra.1 + rb.1) =~= (seq![d] + ra.1) + rb.1);
            },
            None => {},
        }
    } else {
        lemma_validate_shift(a, b, binds, 0);
        assert(validate_from(a, i, binds).0 + validate_from(b, 0, binds).0 =~= validate_from(
            b,
            0,
            binds,
        ).0);
        assert(validate_from(a, i, binds).1 + validate_from(b, 0, binds).1 =~= validate_from(
            b,
            0,
            binds,
        ).1);
    }
}

proof fn lemma_validate_chain_step(cmds: Seq<CommandSpec>, k: int, binds: Seq<(Seq<char>, BindV)>)
    requires
        0 <= k < cmds.len(),
    ensures
        validate_chain(cmds.skip(k), binds).0 == validate_cmd(cmds[k], binds).0 + validate_chain(
            cmds.skip(k + 1),
            binds,
        ).0,
        validate_chain(cmds.skip(k), binds).1 == validate_cmd(cmds[k], binds).1 + validate_chain(
            cmds.skip(k + 1),
            binds,
        ).1,
{
    let specs_k = cmds[k].flags@ + cmds[k].positionals@;
    assert(cmds.skip(k).len() > 0);
    assert(cmds.skip(k)[0] == cmds[k]);
    assert(cmds.skip(k).drop_first() =~= cmds.skip(k + 1));
    assert(chain_specs(cmds.skip(k)) == specs_k + chain_specs(cmds.skip(k + 1)));
    lemma_validate_concat(specs_k, chain_specs(cmds.skip(k + 1)), binds, 0);
}

proof fn lemma_digits_val_nonneg(ds: Seq<char>, m: int)
    requires
        0 <= m <= ds.len(),
        all_digits(ds),
    ensures
        digits_val(ds.take(m)) >= 0,
    decreases m,
{
    if m > 0 {
        lemma_digits_val_nonneg(ds, m - 1);
        assert(ds.take(m).drop_last() =~= ds.take(m - 1));
        assert(ds.take(m).last() == ds[m - 1]);
    } else {
        assert(ds.take(0) =~= Seq::<char>::empty());
    }
}

proof fn lemma_digits_val_monotone(ds: Seq<char>, m: int)
    requires
        0 <= m <= ds.len(),
        all_digits(ds),
    ensures
        digits_val(ds) >= digits_val(ds.take(m)),
    decreases ds.len() - m,
{
    if m < ds.len() {
        lemma_digits_val_nonneg(ds, m);
        assert(ds.take(m + 1).drop_last() =~= ds.take(m));
        assert(ds.take(m + 1).last() == ds[m]);
        assert(digits_val(ds.take(m + 1)) == digits_val(ds.take(m)) * 10 + (ds[m] as int
            - '0' as int));
        lemma_digits_val_monotone(ds, m + 1);
    } else {
        assert(ds.take(m) =~= ds);
    }
}

/// Parses an optional minus or plus sign followed by decimal digits,
/// rejecting anything else and any value outside the signed 64-bit range.
fn parse_int(s: &String) -> (r: Option<i64>)
    ensures
        r == spec_parse_int(s@),
{
    let st = s.as_str();
    let n = st.unicode_len();
    let neg = n > 0 && st.get_char(0) == '-';
    let signed = neg || (n > 0 && st.get_char(0) == '+');
    let start: usize = if signed {
        1
    } else {
        0
    };
    let ghost ds: Seq<char> = if signed {
        s@.drop_first()
    } else {
        s@
    };
    proof {
        assert(ds.len() == n - start);
        assert(forall|j: int| 0 <= j < ds.len() ==> ds[j] == s@[j + start]);
    }
    if start >= n {
        return None;
    }
    let limit: u128 = if neg {
        0x8000_0000_0000_0000
    } else {
        0x7fff_ffff_ffff_ffff
    };
    let mut acc: u128 = 0;
    let mut k = start;
    while k < n
        invariant
            start <= k <= n,
            n == s@.len(),
            st@ == s@,
            start == (if signed { 1int } else { 0int }),
            neg == (s@.len() > 0 && s@[0] == '-'),
            signed == (neg || (s@.len() > 0 && s@[0] == '+')),
            ds == (if signed { s@.drop_first() } else { s@ }),
            ds.len() == n - start,
            limit == (if neg { 0x8000_0000_0000_0000u128 } else { 0x7fff_ffff_ffff_ffffu128 }),
            forall|j: int| 0 <= j < k - start ==> is_digit(#[trigger] ds[j]),
            acc == digits_val(ds.take(k - start)),
            acc <= limit,
        decreases n - k,
    {
        let c = st.get_char(k);
        let code = c as u32;
        if code < 48 || code > 57 {
            proof {
                assert(ds[k - start] == s@[k as int]);
                assert(!is_digit(ds[k - start]));
            }
            return None;
        }
        let d = (code - 48) as u128;
        let ghost j = k - start;
        acc = acc * 10 + d;
        proof {
            assert(ds.take(j + 1).drop_last() =~= ds.take(j));
            assert(ds.take(j + 1).last() == ds[j]);
            assert(ds[j] == s@[k as int]);
            assert(acc == digits_val(ds.take(j + 1)));
        }
        if acc > limit {
            proof {
                if all_digits(ds) {
                    lemma_digits_val_monotone(ds, j + 1);
                }
            }
            return None;
        }
        k = k + 1;
    }
    proof {
        assert(ds.take(n - start) =~= ds);
        assert(all_digits(ds));
        assert(acc == digits_val(ds));
    }
    if neg {
        if acc == 0x8000_0000_0000_0000 {
            Some(i64::MIN)
        } else {
            Some(-((acc as u64) as i64))
        }
    } else {
        Some(acc as i64)
    }
}

/// Recognizes exactly the words `true` and `false`.
fn parse_truth(s: &String) -> (r: Option<bool>)
    ensures
        r == spec_parse_truth(s@),
{
    if *s == String::from_str("true") {
        Some(true)
    } else if *s == String::from_str("false") {
        Some(false)
    } else {
        None
    }
}

/// The view of an optional typed value.
pub open spec fn opt_typed_view(o: Option<TypedValue>) -> Option<TypedV> {
    match o {
        Some(v) => Some(v@),
        None => None,
    }
}

/// Coerces one raw string to the declared type.
fn coerce_text_value(vt: ValueType, raw: &String) -> (r: Option<TypedValue>)
    ensures
        opt_typed_view(r) == coerce_text(vt, raw@),
{
    match vt {
        ValueType::Text => Some(TypedValue::Text(raw.clone())),
        ValueType::Integer => match parse_int(raw) {
            Some(v) => Some(TypedValue::Integer(v)),
            None => None,
        },
        ValueType::Truth => match parse_truth(raw) {
            Some(b) => Some(TypedValue::Truth(b)),
            None => None,
        },
    }
}

/// Applies `validate_one` for one declaration, appending the typed entry
/// or the diagnostic it produces.
fn validate_entry(
    f: &ArgSpec,
    bindings: &Bindings,
    vals: &mut Vec<ValueEntry>,
    diags: &mut Vec<Diagnostic>,
)
    ensures
        ({
            let one = validate_one(*f, bindings@);
            &&& value_views(final(vals)@) == (match one.0 {
                Some(e) => value_views(old(vals)@).push(e),
                None => value_views(old(vals)@),
            })
            &&& diag_views(final(diags)@) == (match one.1 {
                Some(d) => diag_views(old(diags)@).push(d),
                None => diag_views(old(diags)@),
            })
        }),
{
    let bopt: Option<&Binding> = match bindings.get(&f.name) {
        Some(b) => match b {
            Binding::Absent => None,
            _ => Some(b),
        },
        None => None,
    };
    match bopt {
        Some(b) => {
            let coerced: Option<TypedValue> = match b {
                Binding::Bool(x) => Some(TypedValue::Truth(*x)),
                Binding::Count(n) => Some(TypedValue::Count(*n)),
                Binding::Value(s) => coerce_text_value(f.vtype, s),
                Binding::Absent => None,
            };
            match coerced {
                Some(v) => {
                    let ghost vv = v@;
                    let ghost prev = value_views(vals@);
                    vals.push(ValueEntry { name: f.name.clone(), value: v });
                    proof {
                        assert(value_views(vals@) =~= prev.push((f.name@, vv)));
                    }
                },
                None => {
                    push_diag(
                        diags,
                        DiagKind::TypeMismatch,
                        f.name.clone(),
                        "the value does not parse as the declared type",
                    );
                },
            }
        },
        None => {
            if f.required {
                push_diag(
                    diags,
                    DiagKind::MissingRequired,
                    f.name.clone(),
                    "a required argument was not supplied",
                );
            } else {
                match &f.default {
                    Some(d) => {
                        match coerce_text_value(f.vtype, d) {
                            Some(v) => {
                                let ghost vv = v@;
                                let ghost prev = value_views(vals@);
                                vals.push(ValueEntry { name: f.name.clone(), value: v });
                                proof {
                                    assert(value_views(vals@) =~= prev.push((f.name@, vv)));
                                }
                            },
                            None => {
                                push_diag(
                                    diags,
                                    DiagKind::TypeMismatch,
                                    f.name.clone(),
                                    "the default does not parse as the declared type",
                                );
                            },
                        }
                    },
                    None => {},
                }
            }
        },
    }
}

/// Checks the bindings against every declaration of one command — flags
/// first, then positionals, in declaration order — producing its typed
/// entries and diagnostics.
pub fn validate(cmd: &CommandSpec, bindings: &Bindings) -> (r: (Vec<ValueEntry>, Vec<Diagnostic>))
    ensures
        value_views(r.0@) == validate_cmd(*cmd, bindings@).0,
        diag_views(r.1@) == validate_cmd(*cmd, bindings@).1,
{
    let ghost all: Seq<ArgSpec> = cmd.flags@ + cmd.positionals@;
    let mut vals: Vec<ValueEntry> = Vec::new();
    let mut diags: Vec<Diagnostic> = Vec::new();
    let nf = cmd.flags.len();
    let np = cmd.positionals.len();
    proof {
        assert(value_views(vals@) =~= Seq::<(Seq<char>, TypedV)>::empty());
        assert(diag_views(diags@) =~= Seq::<DiagV>::empty());
        assert(value_views(vals@) + validate_from(all, 0, bindings@).0 =~= validate_from(
            all,
            0,
            bindings@,
        ).0);
        assert(diag_views(diags@) + validate_from(all, 0, bindings@).1 =~= validate_from(
            all,
            0,
            bindings@,
        ).1);
    }
    for i in 0..nf
        invariant
            nf == cmd.flags@.len(),
            np == cmd.positionals@.len(),
            all == cmd.flags@ + cmd.positionals@,
            all.len() == nf + np,
            value_views(vals@) + validate_from(all, i as int, bindings@).0 == validate_from(
                all,
                0,
                bindings@,
            ).0,
            diag_views(diags@) + validate_from(all, i as int, bindings@).1 == validate_from(
                all,
                0,
                bindings@,
            ).1,
    {
        proof {
            assert(all[i as int] == cmd.flags@[i as int]);
        }
        let ghost prev_vals = value_views(vals@);
        let ghost prev_diags = diag_views(diags@);
        validate_entry(&cmd.flags[i], bindings, &mut vals, &mut diags);
        proof {
            lemma_validate_unfold(all, i as int, bindings@, prev_vals, prev_diags, value_views(
                vals@,
            ), diag_views(diags@));
        }
    }
    for i in 0..np
        invariant
            nf == cmd.flags@.len(),
            np == cmd.positionals@.len(),
            all == cmd.flags@ + cmd.positionals@,
            all.len() == nf + np,
            value_views(vals@) + validate_from(all, nf + i as int, bindings@).0 == validate_from(
                all,
                0,
                bindings@,
            ).0,
            diag_views(diags@) + validate_from(all, nf + i as int, bindings@).1 == validate_from(
                all,
                0,
                bindings@,
            ).1,
    {
        proof {
            assert(all[nf + i as int] == cmd.positionals@[i as int]);
        }
        let ghost prev_vals = value_views(vals@);
        let ghost prev_diags = diag_views(diags@);
        validate_entry(&cmd.positionals[i], bindings, &mut vals, &mut diags);
        proof {
            lemma_validate_unfold(all, nf + i as int, bindings@, prev_vals, prev_diags,
            value_views(vals@), diag_views(diags@));
        }
    }
    proof {
        assert(value_views(vals@) + validate_from(all, nf + np as int, bindings@).0 =~= value_views(
            vals@,
        ));
        assert(diag_views(diags@) + validate_from(all, nf + np as int, bindings@).1 =~= diag_views(
            diags@,
        ));
    }
    (vals, diags)
}

proof fn lemma_validate_unfold(
    all: Seq<ArgSpec>,
    i: int,
    binds: Seq<(Seq<char>, BindV)>,
    prev_vals: Seq<(Seq<char>, TypedV)>,
    prev_diags: Seq<DiagV>,
    new_vals: Seq<(Seq<char>, TypedV)>,
    new_diags: Seq<DiagV>,
)
    requires
        0 <= i < all.len(),
        prev_vals + validate_from(all, i, binds).0 == validate_from(all, 0, binds).0,
        prev_diags + validate_from(all, i, binds).1 == validate_from(all, 0, binds).1,
        new_vals == (match validate_one(all[i], binds).0 {
            Some(e) => prev_vals.push(e),
            None => prev_vals,
        }),
        new_diags == (match validate_one(all[i], binds).1 {
            Some(d) => prev_diags.push(d),
            None => prev_diags,
        }),
    ensures
        new_vals + validate_from(all, i + 1, binds).0 == validate_from(all, 0, binds).0,
        new_diags + validate_from(all, i + 1, binds).1 == validate_from(all, 0, binds).1,
{
    let one = validate_one(all[i], binds);
    let rest = validate_from(all, i + 1, binds);
    match one.0 {
        Some(e) => {
            assert(prev_vals + (seq![e] + rest.0) =~= prev_vals.push(e) + rest.0);
        },
        None => {},
    }
    match one.1 {
        Some(d) => {
            assert(prev_diags + (seq![d] + rest.1) =~= prev_diags.push(d) + rest.1);
        },
        None => {},
    }
}

/// Checks the bindings against every declaration of every command along
/// the selected path, root to leaf, producing the typed value map and
/// every diagnostic in one pass.
pub fn validate_path(path: &Vec<&CommandSpec>, bindings: &Bindings) -> (r: (
    Vec<ValueEntry>,
    Vec<Diagnostic>,
))
    ensures
        value_views(r.0@) == validate_chain(
            path@.map_values(|c: &CommandSpec| *c),
            bindings@,
        ).0,
        diag_views(r.1@) == validate_chain(path@.map_values(|c: &CommandSpec| *c), bindings@).1,
{
    let ghost cmds: Seq<CommandSpec> = path@.map_values(|c: &CommandSpec| *c);
    let mut vals: Vec<ValueEntry> = Vec::new();
    let mut diags: Vec<Diagnostic> = Vec::new();
    let np = path.len();
    proof {
        assert(cmds.skip(0) =~= cmds);
        assert(value_views(vals@) + validate_chain(cmds, bindings@).0 =~= validate_chain(
            cmds,
            bindings@,
        ).0);
        assert(diag_views(diags@) + validate_chain(cmds, bindings@).1 =~= validate_chain(
            cmds,
            bindings@,
        ).1);
    }
    for k in 0..np
        invariant
            np == path@.len(),
            cmds == path@.map_values(|c: &CommandSpec| *c),
            cmds.len() == np,
            value_views(vals@) + validate_chain(cmds.skip(k as int), bindings@).0
                == validate_chain(cmds, bindings@).0,
            diag_views(diags@) + validate_chain(cmds.skip(k as int), bindings@).1
                == validate_chain(cmds, bindings@).1,
    {
        proof {
            assert(cmds[k as int] == *path@[k as int]);
        }
        let (mut step_vals, mut step_diags) = validate(path[k], bindings);
        let ghost prev_vals = value_views(vals@);
        let ghost prev_diags = diag_views(diags@);
        let ghost new_vals = value_views(step_vals@);
        let ghost new_diags = diag_views(step_diags@);
        vals.append(&mut step_vals);
        diags.append(&mut step_diags);
        proof {
            lemma_validate_chain_step(cmds, k as int, bindings@);
            assert(value_views(vals@) =~= prev_vals + new_vals);
            assert(diag_views(diags@) =~= prev_diags + new_diags);
            assert(prev_vals + (new_vals + validate_chain(cmds.skip(k as int + 1), bindings@).0)
                =~= (prev_vals + new_vals) + validate_chain(cmds.skip(k as int + 1), bindings@).0);
            assert(prev_diags + (new_diags + validate_chain(cmds.skip(k as int + 1), bindings@).1)
                =~= (prev_diags + new_diags) + validate_chain(cmds.skip(k as int + 1), bindings@).1);
        }
    }
    proof {
        assert(cmds.skip(np as int) =~= Seq::<CommandSpec>::empty());
        assert(chain_specs(Seq::<CommandSpec>::empty()) =~= Seq::<ArgSpec>::empty());
        assert(value_views(vals@) + validate_chain(cmds.skip(np as int), bindings@).0
            =~= value_views(vals@));
        assert(diag_views(diags@) + validate_chain(cmds.skip(np as int), bindings@).1
            =~= diag_views(diags@));
    }
    (vals, diags)
}

/// The typed value stored under `name`: that of the first entry keyed
/// `name`, or nothing.
pub open spec fn entry_for(vals: Seq<(Seq<char>, TypedV)>, name: Seq<char>) -> Option<TypedV>
    decreases vals.len(),
{
    if vals.len() == 0 {
        None
    } else if vals[0].0 == name {
        Some(vals[0].1)
    } else {
        entry_for(vals.drop_first(), name)
    }
}

proof fn lemma_entry_for_prepend(
    e: (Seq<char>, TypedV),
    rest: Seq<(Seq<char>, TypedV)>,
    name: Seq<char>,
)
    ensures
        entry_for(seq![e] + rest, name) == (if e.0 == name {
            Some(e.1)
        } else {
            entry_for(rest, name)
        }),
{
    assert((seq![e] + rest)[0] == e);
    assert((seq![e] + rest).drop_first() =~= rest);
}

proof fn lemma_entry_for_none(vals: Seq<(Seq<char>, TypedV)>, name: Seq<char>)
    requires
        forall|k: int| 0 <= k < vals.len() ==> (#[trigger] vals[k]).0 != name,
    ensures
        entry_for(vals, name) is None,
    decreases vals.len(),
{
    if vals.len() > 0 {
        assert(vals[0].0 != name);
        lemma_entry_for_none(vals.drop_first(), name);
    }
}

/// Law (no spurious fields): every entry the validator emits is named by
/// some declaration in the list it was checked against.
pub proof fn lemma_validate_names_declared(
    specs: Seq<ArgSpec>,
    i: int,
    binds: Seq<(Seq<char>, BindV)>,
)
    requires
        0 <= i <= specs.len(),
    ensures
        forall|k: int|
            0 <= k < validate_from(specs, i, binds).0.len() ==> exists|m: int|
                i <= m < specs.len() && (#[trigger] validate_from(specs, i, binds).0[k]).0
                    == specs[m].name@,
    decreases specs.len() - i,
{
    if i < specs.len() {
        lemma_validate_names_declared(specs, i + 1, binds);
        let one = validate_one(specs[i], binds);
        let rest = validate_from(specs, i + 1, binds);
        let vals = validate_from(specs, i, binds).0;
        assert forall|k: int| 0 <= k < vals.len() implies exists|m: int|
            i <= m < specs.len() && (#[trigger] vals[k]).0 == specs[m].name@ by {
            match one.0 {
                Some(e) => {
                    if k == 0 {
                        assert(vals[0] == e);
                        assert(vals[k].0 == specs[i].name@);
                    } else {
                        assert(vals[k] == rest.0[k - 1]);
                        let m = choose|m: int|
                            i + 1 <= m < specs.len() && rest.0[k - 1].0 == specs[m].name@;
                        assert(vals[k].0 == specs[m].name@);
                    }
                },
                None => {
                    assert(vals[k] == rest.0[k]);
                    let m = choose|m: int|
                        i + 1 <= m < specs.len() && rest.0[k].0 == specs[m].name@;
                    assert(vals[k].0 == specs[m].name@);
                },
            }
        }
    }
}

/// Law (defaults overridden by supplied values): when validation reports
/// no diagnostic and declaration `j` is the only one bearing its name, the
/// entry stored under that name is exactly the coercion of its binding; an
/// unbound declaration gets exactly its coerced default, or no entry at
/// all when it declares none.
pub proof fn lemma_validate_defaults_overridden(
    specs: Seq<ArgSpec>,
    i: int,
    binds: Seq<(Seq<char>, BindV)>,
    j: int,
)
    requires
        0 <= i <= j < specs.len(),
        forall|k: int|
            i <= k < specs.len() && k != j ==> (#[trigger] specs[k]).name@ != specs[j].name@,
        validate_from(specs, i, binds).1.len() == 0,
    ensures
        ({
            let f = specs[j];
            let vals = validate_from(specs, i, binds).0;
            let b = lookup_bind(binds, f.name@);
            &&& (!(b is Absent) ==> entry_for(vals, f.name@) == coerce_bind(f, b))
            &&& ((b is Absent && f.default is Some) ==> entry_for(vals, f.name@) == coerce_text(
                f.vtype,
                f.default->0@,
            ))
            &&& ((b is Absent && f.default is None) ==> entry_for(vals, f.name@) is None)
        }),
    decreases j - i,
{
    let f = specs[j];
    let one = validate_one(specs[i], binds);
    let rest = validate_from(specs, i + 1, binds);
    let vals = validate_from(specs, i, binds).0;
    match one.1 {
        Some(d) => {
            assert(validate_from(specs, i, binds).1[0] == d);
            assert(false);
        },
        None => {},
    }
    assert(rest.1.len() == 0);
    if i < j {
        lemma_validate_defaults_overridden(specs, i + 1, binds, j);
        match one.0 {
            Some(e) => {
                assert(e.0 == specs[i].name@);
                assert(specs[i].name@ != f.name@);
                lemma_entry_for_prepend(e, rest.0, f.name@);
            },
            None => {},
        }
    } else {
        let b = lookup_bind(binds, f.name@);
        if !(b is Absent) {
            match coerce_bind(f, b) {
                Some(v) => {
                    lemma_entry_for_prepend((f.name@, v), rest.0, f.name@);
                },
                None => {
                    assert(false);
                },
            }
        } else if f.required {
            assert(false);
        } else {
            match f.default {
                Some(d) => {
                    match coerce_text(f.vtype, d@) {
                        Some(v) => {
                            lemma_entry_for_prepend((f.name@, v), rest.0, f.name@);
                        },
                        None => {
                            assert(false);
                        },
                    }
                },
                None => {
                    lemma_validate_names_declared(specs, i + 1, binds);
                    assert forall|k: int| 0 <= k < rest.0.len() implies (#[trigger] rest.0[k]).0
                        != f.name@ by {
                        let m = choose|m: int|
                            i + 1 <= m < specs.len() && rest.0[k].0 == specs[m].name@;
                        assert(specs[m].name@ != f.name@);
                    }
                    lemma_entry_for_none(rest.0, f.name@);
                },
            }
        }
    }
}

} // verus!
