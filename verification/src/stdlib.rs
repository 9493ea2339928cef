use vstd::prelude::*;

verus! {

/// The standard definitions: combinators, truth values, pairs, lists and
/// arithmetic on Church numerals, one assignment to a line.
pub const STD: &'static str =
    "ID := \\x . x
S := \\x y z . x z (y z)
K := \\x y . x
B := \\x y z . x (y z)
C := \\x y z . x z y
W := \\x y . x y y
OMEGA := \\x . x x
TRUE := \\x y . x
FALSE := \\x y . y
AND := \\p q . p q p
OR := \\p q . p p q
NOT := \\p . p FALSE TRUE
IFTHENELSE := \\p a b . p a b
PAIR := \\x y . \\z . z x y
FIRST := \\p . p TRUE
SECOND := \\p . p FALSE
NIL := \\c n . n
ISNIL := \\l . l (\\h t . FALSE) TRUE
CONS := \\h t c n . c h (t c n)
HEAD := \\l . l (\\h t . h) FALSE
TAIL := \\l c n . l (\\h t g . g h (t c)) (\\t . n) (\\h t . t)
ADD := \\m n f x . m f (n f x)
SUCC := \\n f x . f (n f x)
MULT := \\m n f x . m (n f) x
EXP := \\m n . n m
PRED := \\n f x . n (\\g h . h (g f)) (\\u . x) (\\u . u)
SUB := \\m n . (n PRED) m
";

} // verus!
