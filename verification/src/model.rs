//! The argument model: declarative descriptions of flags, positional
//! arguments and subcommands, validated once at construction time.

use vstd::prelude::*;

verus! {

/// How many values one declared argument consumes.
#[derive(Clone, Copy, Debug, PartialEq, Eq, Structural)]
pub enum Arity {
    /// A boolean flag: its presence binds `true`, it carries no value.
    NoValue,
    /// Exactly one value, inline (`--k=v`) or from the following argument.
    OneValue,
    /// Each occurrence increments a counter (for example `-vvv`).
    Counted,
}

/// The declared type a bound raw value is coerced to by the validator.
#[derive(Clone, Copy, Debug, PartialEq, Eq, Structural)]
pub enum ValueType {
    /// Kept as the raw string.
    Text,
    /// Parsed as a signed decimal integer.
    Integer,
    /// Parsed as the word `true` or `false`.
    Truth,
}

/// One declared option or positional argument.
pub struct ArgSpec {
    /// Identifying name: the key under which the resolved value is stored.
    pub name: String,
    /// Optional one-character alias (`-v`).
    pub short: Option<char>,
    /// Optional long alias (`--verbose`), written without the dashes.
    pub long: Option<String>,
    /// How many values this argument consumes.
    pub arity: Arity,
    /// Declared type of the bound value.
    pub vtype: ValueType,
    /// Raw default, coerced like a user-supplied value when nothing binds.
    pub default: Option<String>,
    /// When set, a missing binding is a diagnostic.
    pub required: bool,
    /// Human-readable description; never interpreted.
    pub help: String,
}

/// A named command node: its own flags and positionals, plus child
/// subcommands (empty for leaf commands).
pub struct CommandSpec {
    pub name: String,
    pub flags: Vec<ArgSpec>,
    pub positionals: Vec<ArgSpec>,
    pub subcommands: Vec<CommandSpec>,
}

/// A construction-time (programmer) error in a command description.
#[derive(Debug)]
pub enum ModelError {
    /// Two argument declarations in one command share a short or long alias.
    DuplicateAlias { alias: String },
    /// Two child commands of one command share a name.
    DuplicateSubcommandName { name: String },
}

/// The text reported for a collision between two declarations: the shared
/// long alias where both carry one, otherwise the first declaration's name.
pub open spec fn spec_colliding_alias(a: ArgSpec, b: ArgSpec) -> Seq<char> {
    if a.long is Some && b.long is Some && a.long->0@ == b.long->0@ {
        a.long->0@
    } else {
        a.name@
    }
}

/// Two argument declarations collide when both carry the same short alias
/// or both carry the same long alias.
pub open spec fn shares_alias(a: ArgSpec, b: ArgSpec) -> bool {
    ||| (a.short is Some && b.short is Some && a.short->0 == b.short->0)
    ||| (a.long is Some && b.long is Some && a.long->0@ == b.long->0@)
}

/// Some pair of distinct flag declarations collides.
pub open spec fn has_duplicate_alias(flags: Seq<ArgSpec>) -> bool {
    exists|i: int, j: int| 0 <= i < j < flags.len() && shares_alias(flags[i], flags[j])
}

/// Some pair of distinct child commands shares a name.
pub open spec fn has_duplicate_subcommand(subs: Seq<CommandSpec>) -> bool {
    exists|i: int, j: int| 0 <= i < j < subs.len() && subs[i].name@ == subs[j].name@
}

impl CommandSpec {
    /// The construction-time invariant: alias and subcommand names are
    /// unique at every node of the tree.
    pub open spec fn well_formed(self) -> bool
        decreases self,
    {
        &&& !has_duplicate_alias(self.flags@)
        &&& !has_duplicate_subcommand(self.subcommands@)
        &&& forall|i: int|
            #![trigger self.subcommands@[i]]
            0 <= i < self.subcommands@.len() ==> self.subcommands@[i].well_formed()
    }

    /// Builds a command node, rejecting duplicate aliases among `flags`
    /// and duplicate names among `subcommands`.  Alias collisions are
    /// reported before subcommand-name collisions.
    pub fn define(
        name: String,
        flags: Vec<ArgSpec>,
        positionals: Vec<ArgSpec>,
        subcommands: Vec<CommandSpec>,
    ) -> (r: Result<CommandSpec, ModelError>)
        requires
            forall|i: int|
                #![trigger subcommands@[i]]
                0 <= i < subcommands@.len() ==> subcommands@[i].well_formed(),
        ensures
            r is Ok <==> !has_duplicate_alias(flags@) && !has_duplicate_subcommand(
                subcommands@,
            ),
            r matches Ok(c) ==> c.well_formed() && c.name == name && c.flags == flags
                && c.positionals == positionals && c.subcommands == subcommands,
            r matches Err(ModelError::DuplicateAlias { alias }) ==> exists|i: int, j: int|
                0 <= i < j < flags@.len() && shares_alias(flags@[i], flags@[j]) && alias@
                    == spec_colliding_alias(flags@[i], flags@[j]),
            r matches Err(ModelError::DuplicateSubcommandName { name: n }) ==> !has_duplicate_alias(
                flags@,
            ) && exists|i: int, j: int|
                0 <= i < j < subcommands@.len() && subcommands@[i].name@ == subcommands@[j].name@
                    && n@ == subcommands@[i].name@,
    {
        let n_flags = flags.len();
        for j in 0..n_flags
            invariant
                n_flags == flags@.len(),
                forall|a: int, b: int| 0 <= a < b < j ==> !shares_alias(flags@[a], flags@[b]),
        {
            for i in 0..j
                invariant
                    j < n_flags == flags@.len(),
                    forall|a: int, b: int| 0 <= a < b < j ==> !shares_alias(flags@[a], flags@[b]),
                    forall|a: int| 0 <= a < i ==> !shares_alias(flags@[a], flags@[j as int]),
            {
                if alias_collision(&flags[i], &flags[j]) {
                    let offending = colliding_alias(&flags[i], &flags[j]);
                    return Err(ModelError::DuplicateAlias { alias: offending });
                }
            }
        }
        let n_subs = subcommands.len();
        for j in 0..n_subs
            invariant
                n_subs == subcommands@.len(),
                forall|a: int, b: int|
                    0 <= a < b < j ==> subcommands@[a].name@ != subcommands@[b].name@,
                !has_duplicate_alias(flags@),
        {
            for i in 0..j
                invariant
                    j < n_subs == subcommands@.len(),
                    forall|a: int, b: int|
                        0 <= a < b < j ==> subcommands@[a].name@ != subcommands@[b].name@,
                    forall|a: int|
                        0 <= a < i ==> subcommands@[a].name@ != subcommands@[j as int].name@,
                    !has_duplicate_alias(flags@),
            {
                if subcommands[i].name == subcommands[j].name {
                    let offending = subcommands[j].name.clone();
                    return Err(ModelError::DuplicateSubcommandName { name: offending });
                }
            }
        }
        let c = CommandSpec { name, flags, positionals, subcommands };
        proof {
            assert(!has_duplicate_alias(c.flags@));
            assert(!has_duplicate_subcommand(c.subcommands@));
            assert(forall|i: int|
                #![trigger c.subcommands@[i]]
                0 <= i < c.subcommands@.len() ==> c.subcommands@[i].well_formed());
            assert(c.well_formed());
        }
        Ok(c)
    }
}

/// Whether two declarations collide on some alias.
fn alias_collision(a: &ArgSpec, b: &ArgSpec) -> (r: bool)
    ensures
        r == shares_alias(*a, *b),
{
    let short_hit = match (&a.short, &b.short) {
        (Some(x), Some(y)) => *x == *y,
        _ => false,
    };
    let long_hit = match (&a.long, &b.long) {
        (Some(x), Some(y)) => *x == *y,
        _ => false,
    };
    short_hit || long_hit
}

/// Text identifying a colliding alias for reporting: the shared long
/// alias where there is one, otherwise the first declaration's name.
fn colliding_alias(a: &ArgSpec, b: &ArgSpec) -> (r: String)
    ensures
        r@ == spec_colliding_alias(*a, *b),
{
    match (&a.long, &b.long) {
        (Some(x), Some(y)) => {
            if *x == *y {
                x.clone()
            } else {
                a.name.clone()
            }
        },
        _ => a.name.clone(),
    }
}

} // verus!