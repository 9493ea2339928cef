use vstd::prelude::*;
use vstd::string::StringExecFns;
use crate::grammar::lambda_at;
use crate::lambda::LambdaTree;
use crate::parsing::LambdaParser;
use crate::term::Term;
use crate::text::Name;

verus! {

/// The table of the built-in terms: the name of each and the term as it is
/// written.
pub open spec fn builtin_table() -> Seq<(&'static str, &'static str)> {
    seq![
        ("ID", "\\x . x"),
        ("S", "\\x y z . x z (y z)"),
        ("K", "\\x y . x"),
        ("B", "\\x y z . x (y z)"),
        ("C", "\\x y z . x z y"),
        ("W", "\\x y . x y y"),
        ("OMEGA", "\\x . x x"),
        ("TRUE", "\\x y . x"),
        ("FALSE", "\\x y . y"),
        ("AND", "\\p q . p q p"),
        ("OR", "\\p q . p p q"),
        ("NOT", "\\p . p FALSE TRUE"),
        ("IFTHENELSE", "\\p a b . p a b"),
        ("PAIR", "\\ x y . \\ z. z x y"),
        ("FIRST", "\\ p . p TRUE"),
        ("SECOND", "\\ p . p FALSE"),
        ("NIL", "\\c n . n"),
        ("ISNIL", "\\l . l (\\h t . FALSE) TRUE"),
        ("CONS", "\\h t c n . c h (t c n)"),
        ("HEAD", "\\l . l (\\h t. h) FALSE"),
        ("TAIL", "\\l c n . l (\\h t g . g h (t c)) (\\t . n) (\\h t . t)"),
        ("ADD", "\\m n f x . m f (n f x)"),
        ("SUCC", "\\n f x . f (n f x)"),
        ("MULT", "\\m n f x . m (n f) x"),
        ("EXP", "\\m n . n m"),
        ("PRED", "\\n f x . n (\\g h . h (g f)) (\\u . x) (\\u . u)"),
        ("SUB", "\\m n . (n PRED) m"),
    ]
}

/// The built-in terms as they are written, each with its name: combinators,
/// truth values, pairs, lists and arithmetic on Church numerals.
pub fn builtin_sources() -> (r: Vec<(&'static str, &'static str)>)
    ensures
        r@ == builtin_table(),
        r.len() == 27,
{
    let mut v: Vec<(&'static str, &'static str)> = Vec::new();
    // standard terms
    v.push(("ID", "\\x . x"));
    v.push(("S", "\\x y z . x z (y z)"));
    v.push(("K", "\\x y . x"));
    v.push(("B", "\\x y z . x (y z)"));
    v.push(("C", "\\x y z . x z y"));
    v.push(("W", "\\x y . x y y"));
    v.push(("OMEGA", "\\x . x x"));
    // booleans
    v.push(("TRUE", "\\x y . x"));
    v.push(("FALSE", "\\x y . y"));
    v.push(("AND", "\\p q . p q p"));
    v.push(("OR", "\\p q . p p q"));
    v.push(("NOT", "\\p . p FALSE TRUE"));
    v.push(("IFTHENELSE", "\\p a b . p a b"));
    // pairs
    v.push(("PAIR", "\\ x y . \\ z. z x y"));
    v.push(("FIRST", "\\ p . p TRUE"));
    v.push(("SECOND", "\\ p . p FALSE"));
    // lists (using right fold)
    v.push(("NIL", "\\c n . n"));
    v.push(("ISNIL", "\\l . l (\\h t . FALSE) TRUE"));
    v.push(("CONS", "\\h t c n . c h (t c n)"));
    v.push(("HEAD", "\\l . l (\\h t. h) FALSE"));
    v.push(("TAIL", "\\l c n . l (\\h t g . g h (t c)) (\\t . n) (\\h t . t)"));
    // church numerals
    v.push(("ADD", "\\m n f x . m f (n f x)"));
    v.push(("SUCC", "\\n f x . f (n f x)"));
    v.push(("MULT", "\\m n f x . m (n f) x"));
    v.push(("EXP", "\\m n . n m"));
    v.push(("PRED", "\\n f x . n (\\g h . h (g f)) (\\u . x) (\\u . u)"));
    v.push(("SUB", "\\m n . (n PRED) m"));
    assert(v@ =~= builtin_table());
    v
}

/// The term that `text` writes, if it writes one and nothing else.
pub open spec fn read_term(text: Seq<char>) -> Option<Term> {
    match lambda_at(text, 0) {
        Some((t, end)) => if end >= text.len() {
            Some(t)
        } else {
            None
        },
        None => None,
    }
}

/// The terms that the first `n` entries of a table write, each with its name;
/// an entry whose text writes no term is left out.
pub open spec fn terms_of(sources: Seq<(&'static str, &'static str)>, n: nat) -> Seq<(Name, Term)>
    decreases n,
{
    if n == 0 || n > sources.len() {
        Seq::empty()
    } else {
        let earlier = terms_of(sources, (n - 1) as nat);
        match read_term(sources[n - 1].1@) {
            Some(t) => earlier.push((sources[n - 1].0@, t)),
            None => earlier,
        }
    }
}

/// What a list of named trees holds, as the contracts see it.
pub open spec fn named_view(v: Seq<(String, LambdaTree)>) -> Seq<(Name, Term)> {
    Seq::new(v.len(), |i: int| (v[i].0@, v[i].1@))
}

/// The built-in terms, each with its name, in the order of the table. A
/// term that is written in the table is read as it stands: the names of
/// other built-in terms in it are variables.
pub fn get_builtins() -> (r: Vec<(String, LambdaTree)>)
    ensures
        r.len() <= 27,
        forall|i: int| 0 <= i < r.len() ==> (#[trigger] r[i]).1@.link_free(),
        named_view(r@) == terms_of(builtin_table(), builtin_table().len()),
{
    let sources = builtin_sources();
    let mut builtins: Vec<(String, LambdaTree)> = Vec::new();
    let mut i: usize = 0;
    assert(named_view(builtins@) =~= terms_of(sources@, 0));
    while i < sources.len()
        invariant
            i <= sources.len(),
            sources.len() == 27,
            builtins.len() <= i,
            forall|k: int| 0 <= k < builtins.len() ==> (#[trigger] builtins[k]).1@.link_free(),
            named_view(builtins@) == terms_of(sources@, i as nat),
        decreases sources.len() - i,
    {
        let (name, text) = sources[i];
        let ghost before = named_view(builtins@);
        let mut parser = LambdaParser::new(text);
        match parser.parse_lambda() {
            Ok(tree) => {
                if parser.at_end() {
                    builtins.push((String::from_str(name), tree));
                    proof {
                        assert(named_view(builtins@) =~= before.push((name@, tree@)));
                    }
                }
            },
            Err(_) => {},
        }
        i += 1;
    }
    builtins
}

} // verus!
