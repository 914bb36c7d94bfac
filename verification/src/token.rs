//! The tokenizer: splits a raw argument sequence into an ordered stream of
//! lexical tokens.  Classification rules, in priority order:
//!
//! 1. a literal `--` is a separator; every later argument is a positional,
//!    whatever it starts with;
//! 2. an argument starting with `--` is a long flag; text after the first
//!    `=` (searched from its third character) is an inline value;
//! 3. an argument starting with `-` and longer than one character is a
//!    cluster of short flags, holding the characters after the dash;
//! 4. anything else is a positional.

use vstd::prelude::*;

verus! {

/// The mathematical form of one lexical token.
pub enum TokenV {
    LongFlag { name: Seq<char>, inline: Option<Seq<char>> },
    ShortCluster { chars: Seq<char> },
    Positional { text: Seq<char> },
    Separator,
}

/// One lexical unit of the raw input.
#[derive(Debug, PartialEq, Eq)]
pub enum Token {
    /// `--name` or `--name=value`, stored without the leading dashes.
    LongFlag { name: String, inline: Option<String> },
    /// `-abc`: the characters following a single dash.
    ShortCluster { chars: String },
    /// An argument bound by position rather than name.
    Positional { text: String },
    /// The literal `--`: everything after it is positional.
    Separator,
}

impl View for Token {
    type V = TokenV;

    open spec fn view(&self) -> TokenV {
        match self {
            Token::LongFlag { name, inline } => TokenV::LongFlag {
                name: name@,
                inline: match inline {
                    Some(v) => Some(v@),
                    None => None,
                },
            },
            Token::ShortCluster { chars } => TokenV::ShortCluster { chars: chars@ },
            Token::Positional { text } => TokenV::Positional { text: text@ },
            Token::Separator => TokenV::Separator,
        }
    }
}

/// The views of a sequence of owned strings.
pub open spec fn views_of(args: Seq<String>) -> Seq<Seq<char>> {
    args.map_values(|a: String| a@)
}

/// Index of the first `=` at or after position `i`, or the length when
/// there is none.
pub open spec fn first_eq_from(s: Seq<char>, i: int) -> int
    decreases s.len() - i when 0 <= i <= s.len()
{
    if i >= s.len() {
        s.len() as int
    } else if s[i] == '=' {
        i
    } else {
        first_eq_from(s, i + 1)
    }
}

/// Whether an argument is the literal `--` separator.
pub open spec fn is_separator_arg(a: Seq<char>) -> bool {
    a == seq!['-', '-']
}

/// Classification of one raw argument outside escaped mode.
pub open spec fn token_of_arg(a: Seq<char>) -> TokenV {
    if is_separator_arg(a) {
        TokenV::Separator
    } else if a.len() > 2 && a[0] == '-' && a[1] == '-' {
        let k = first_eq_from(a, 2);
        TokenV::LongFlag {
            name: a.subrange(2, k),
            inline: if k < a.len() {
                Some(a.subrange(k + 1, a.len() as int))
            } else {
                None
            },
        }
    } else if a.len() > 1 && a[0] == '-' {
        TokenV::ShortCluster { chars: a.subrange(1, a.len() as int) }
    } else {
        TokenV::Positional { text: a }
    }
}

/// The token stream for the arguments from position `i` on; `escaped`
/// records whether a `--` separator has already been seen.
pub open spec fn tokens_from(args: Seq<Seq<char>>, i: int, escaped: bool) -> Seq<TokenV>
    decreases args.len() - i when 0 <= i <= args.len()
{
    if i >= args.len() {
        Seq::empty()
    } else if escaped {
        seq![TokenV::Positional { text: args[i] }] + tokens_from(args, i + 1, true)
    } else if is_separator_arg(args[i]) {
        seq![TokenV::Separator] + tokens_from(args, i + 1, true)
    } else {
        seq![token_of_arg(args[i])] + tokens_from(args, i + 1, false)
    }
}

/// The full token stream of a raw argument sequence.
pub open spec fn tokens_of_args(args: Seq<Seq<char>>) -> Seq<TokenV> {
    tokens_from(args, 0, false)
}

proof fn lemma_first_eq_from(s: Seq<char>, i: int, k: int)
    requires
        0 <= i <= k <= s.len(),
        forall|j: int| i <= j < k ==> s[j] != '=',
        k == s.len() || s[k] == '=',
    ensures
        first_eq_from(s, i) == k,
    decreases k - i,
{
    if i < k {
        lemma_first_eq_from(s, i + 1, k);
    }
}

/// Classifies one raw argument; in escaped mode everything is positional.
fn classify_arg(a: &String, escaped: bool) -> (t: Token)
    ensures
        escaped ==> t@ == (TokenV::Positional { text: a@ }),
        !escaped ==> t@ == token_of_arg(a@),
{
    if escaped {
        return Token::Positional { text: a.clone() };
    }
    let s = a.as_str();
    let n = s.unicode_len();
    if n == 2 && s.get_char(0) == '-' && s.get_char(1) == '-' {
        proof {
            assert(a@ =~= seq!['-', '-']);
        }
        return Token::Separator;
    }
    proof {
        assert(seq!['-', '-'].len() == 2);
        assert(!is_separator_arg(a@)) by {
            if a@ == seq!['-', '-'] {
                assert(a@.len() == 2);
                assert(a@[0] == '-' && a@[1] == '-');
            }
        }
    }
    if n > 2 && s.get_char(0) == '-' && s.get_char(1) == '-' {
        let mut k: usize = 2;
        while k < n && s.get_char(k) != '='
            invariant
                2 <= k <= n,
                n == a@.len(),
                s@ == a@,
                forall|j: int| 2 <= j < k ==> a@[j] != '=',
            decreases n - k,
        {
            k = k + 1;
        }
        proof {
            lemma_first_eq_from(a@, 2, k as int);
        }
        let name = s.substring_char(2, k).to_owned();
        let inline = if k < n {
            Some(s.substring_char(k + 1, n).to_owned())
        } else {
            None
        };
        return Token::LongFlag { name, inline };
    }
    if n > 1 && s.get_char(0) == '-' {
        let chars = s.substring_char(1, n).to_owned();
        return Token::ShortCluster { chars };
    }
    Token::Positional { text: a.clone() }
}

/// Splits the raw arguments into tokens.  The result is a pure function
/// of the argument texts: one token per argument, classified by the rules
/// above, with everything after a `--` separator kept positional.
pub fn tokenize(args: &Vec<String>) -> (tokens: Vec<Token>)
    ensures
        tokens@.map_values(|t: Token| t@) == tokens_of_args(views_of(args@)),
        tokens@.len() == args@.len(),
{
    let ghost all: Seq<Seq<char>> = views_of(args@);
    let n = args.len();
    let mut tokens: Vec<Token> = Vec::new();
    let mut escaped = false;
    proof {
        assert(tokens@.map_values(|t: Token| t@) + tokens_from(all, 0, false) =~= tokens_of_args(
            all,
        ));
    }
    for idx in 0..n
        invariant
            n == args@.len(),
            all == views_of(args@),
            all.len() == n,
            tokens@.map_values(|t: Token| t@) + tokens_from(all, idx as int, escaped)
                == tokens_of_args(all),
    {
        proof {
            assert(all[idx as int] == args@[idx as int]@);
        }
        let t = classify_arg(&args[idx], escaped);
        let ghost tv = t@;
        let ghost old_esc = escaped;
        let is_sep = match &t {
            Token::Separator => true,
            _ => false,
        };
        let ghost prev = tokens@.map_values(|t: Token| t@);
        tokens.push(t);
        if is_sep {
            escaped = true;
        }
        proof {
            assert(tokens_from(all, idx as int, old_esc) == seq![tv] + tokens_from(
                all,
                idx + 1,
                escaped,
            ));
            assert(tokens@.map_values(|t: Token| t@) =~= prev.push(tv));
            assert(prev + tokens_from(all, idx as int, old_esc) =~= prev.push(tv) + tokens_from(
                all,
                idx + 1,
                escaped,
            ));
        }
    }
    proof {
        assert(tokens@.map_values(|t: Token| t@) =~= tokens_of_args(all));
        lemma_tokens_from_len(all, 0, false);
    }
    tokens
}

/// Law: tokenization is deterministic.  The token stream is a function of
/// the raw argument texts alone — there is no hidden state — so two
/// tokenizations of the same raw sequence are identical.
pub proof fn lemma_tokenize_deterministic(
    first: Seq<TokenV>,
    second: Seq<TokenV>,
    args: Seq<Seq<char>>,
)
    requires
        first == tokens_of_args(args),
        second == tokens_of_args(args),
    ensures
        first == second,
{
}

/// Tokenization emits exactly one token per raw argument.
pub proof fn lemma_tokens_from_len(args: Seq<Seq<char>>, i: int, escaped: bool)
    requires
        0 <= i <= args.len(),
    ensures
        tokens_from(args, i, escaped).len() == args.len() - i,
    decreases args.len() - i,
{
    if i < args.len() {
        lemma_tokens_from_len(args, i + 1, true);
        lemma_tokens_from_len(args, i + 1, false);
    }
}

proof fn lemma_escaped_positional(args: Seq<Seq<char>>, i: int)
    requires
        0 <= i <= args.len(),
    ensures
        forall|j: int|
            i <= j < args.len() ==> tokens_from(args, i, true)[j - i] == (TokenV::Positional {
                text: args[j],
            }),
    decreases args.len() - i,
{
    lemma_tokens_from_len(args, i, true);
    if i < args.len() {
        lemma_escaped_positional(args, i + 1);
        lemma_tokens_from_len(args, i + 1, true);
        assert forall|j: int|
            i <= j < args.len() implies tokens_from(args, i, true)[j - i] == (TokenV::Positional {
            text: args[j],
        }) by {
            if j > i {
                assert(tokens_from(args, i, true)[j - i] == tokens_from(args, i + 1, true)[j - i
                    - 1]);
            }
        }
    }
}

proof fn lemma_escape_from(args: Seq<Seq<char>>, i: int, sep: int)
    requires
        0 <= i <= sep < args.len(),
        is_separator_arg(args[sep]),
        forall|j: int| i <= j < sep ==> !is_separator_arg(#[trigger] args[j]),
    ensures
        tokens_from(args, i, false)[sep - i] == TokenV::Separator,
        forall|j: int|
            sep < j < args.len() ==> tokens_from(args, i, false)[j - i] == (TokenV::Positional {
                text: args[j],
            }),
    decreases sep - i,
{
    lemma_tokens_from_len(args, i, false);
    if i == sep {
        lemma_escaped_positional(args, i + 1);
        lemma_tokens_from_len(args, i + 1, true);
        assert forall|j: int|
            sep < j < args.len() implies tokens_from(args, i, false)[j - i]
            == (TokenV::Positional { text: args[j] }) by {
            assert(tokens_from(args, i, false)[j - i] == tokens_from(args, i + 1, true)[j - i - 1]);
        }
    } else {
        lemma_escape_from(args, i + 1, sep);
        lemma_tokens_from_len(args, i + 1, false);
        assert(tokens_from(args, i, false)[sep - i] == tokens_from(args, i + 1, false)[sep - i
            - 1]);
        assert forall|j: int|
            sep < j < args.len() implies tokens_from(args, i, false)[j - i]
            == (TokenV::Positional { text: args[j] }) by {
            assert(tokens_from(args, i, false)[j - i] == tokens_from(args, i + 1, false)[j - i
                - 1]);
        }
    }
}

/// Law: any argument after a literal `--` is tokenized as a positional,
/// even when it starts with a dash.  `sep` is the position of the first
/// `--` in the raw input; the separator itself becomes the separator
/// token and everything after it keeps its raw text.
pub proof fn lemma_separator_escapes(args: Seq<Seq<char>>, sep: int)
    requires
        0 <= sep < args.len(),
        is_separator_arg(args[sep]),
        forall|j: int| 0 <= j < sep ==> !is_separator_arg(#[trigger] args[j]),
    ensures
        tokens_of_args(args).len() == args.len(),
        tokens_of_args(args)[sep] == TokenV::Separator,
        forall|j: int|
            sep < j < args.len() ==> tokens_of_args(args)[j] == (TokenV::Positional {
                text: args[j],
            }),
{
    lemma_tokens_from_len(args, 0, false);
    lemma_escape_from(args, 0, sep);
}

} // verus!
