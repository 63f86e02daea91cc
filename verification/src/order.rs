//! Lexicographic comparison of byte sequences, strings and lists of strings,
//! following the orders that `Ord` gives these types in Rust: strings compare
//! by their UTF-8 bytes, lists element by element and then by their length.

use vstd::prelude::*;
use vstd::utf8::encode_utf8;

verus! {

/// The outcome of a comparison.
#[derive(Debug, Clone, Copy, PartialEq, Eq, Structural)]
pub enum Order {
    Less,
    Equal,
    Greater,
}

/// The outcome of comparing the other way round.
pub open spec fn reverse(o: Order) -> Order {
    match o {
        Order::Less => Order::Greater,
        Order::Equal => Order::Equal,
        Order::Greater => Order::Less,
    }
}

/// Lexicographic combination: `first` decides unless it is `Equal`.
pub open spec fn then(first: Order, second: Order) -> Order {
    if first == Order::Equal {
        second
    } else {
        first
    }
}

/// The order of two integers.
pub open spec fn num_order(a: int, b: int) -> Order {
    if a < b {
        Order::Less
    } else if a == b {
        Order::Equal
    } else {
        Order::Greater
    }
}

/// Lexicographic order of two sequences whose elements are ordered by `elem`:
/// the first position where they differ decides, and a proper prefix comes
/// first.
pub open spec fn lex_order<T>(a: Seq<T>, b: Seq<T>, elem: spec_fn(T, T) -> Order) -> Order
    decreases a.len(),
{
    if a.len() == 0 {
        if b.len() == 0 {
            Order::Equal
        } else {
            Order::Less
        }
    } else if b.len() == 0 {
        Order::Greater
    } else {
        then(elem(a[0], b[0]), lex_order(a.drop_first(), b.drop_first(), elem))
    }
}

/// The order of bytes.
pub open spec fn byte_order(a: u8, b: u8) -> Order {
    num_order(a as int, b as int)
}

/// The byte order as a function.
pub open spec fn byte_order_fn() -> spec_fn(u8, u8) -> Order {
    |x: u8, y: u8| byte_order(x, y)
}

/// The order of two strings: lexicographic on their UTF-8 encodings.
#[verifier::opaque]
pub open spec fn str_order(a: Seq<char>, b: Seq<char>) -> Order {
    lex_order(encode_utf8(a), encode_utf8(b), byte_order_fn())
}

/// The order of strings (by their contents) as a function.
pub open spec fn string_order_fn() -> spec_fn(String, String) -> Order {
    |x: String, y: String| str_order(x@, y@)
}

/// The order of two lists of strings.
#[verifier::opaque]
pub open spec fn strings_order(a: Seq<String>, b: Seq<String>) -> Order {
    lex_order(a, b, string_order_fn())
}

/// The order of lists of strings as a function.
pub open spec fn strings_order_fn() -> spec_fn(Vec<String>, Vec<String>) -> Order {
    |x: Vec<String>, y: Vec<String>| strings_order(x@, y@)
}

/// The order of two lists of lists of strings.
#[verifier::opaque]
pub open spec fn string_lists_order(a: Seq<Vec<String>>, b: Seq<Vec<String>>) -> Order {
    lex_order(a, b, strings_order_fn())
}

/// For three values `a`, `b`, `c` with `ab`, `bc`, `ac` the outcomes of
/// comparing them pairwise: `a <= b <= c` gives `a <= c`, and `a == c` then
/// holds only when `a == b == c`.
pub open spec fn consistent(ab: Order, bc: Order, ac: Order) -> bool {
    (ab != Order::Greater && bc != Order::Greater) ==> (ac != Order::Greater && (ac
        == Order::Equal ==> ab == Order::Equal && bc == Order::Equal))
}

/// `ord` is a total preorder: comparing the other way round reverses the
/// outcome, and it is transitive.
pub open spec fn is_total_preorder<T>(ord: spec_fn(T, T) -> Order) -> bool {
    &&& forall|a: T, b: T| #[trigger] ord(a, b) == reverse(ord(b, a))
    &&& forall|a: T, b: T, c: T| #[trigger]
        consistent(ord(a, b), ord(b, c), ord(a, c))
}

/// Combining two consistent comparisons lexicographically stays consistent.
pub proof fn lemma_then_consistent(
    ab1: Order,
    bc1: Order,
    ac1: Order,
    ab2: Order,
    bc2: Order,
    ac2: Order,
)
    requires
        consistent(ab1, bc1, ac1),
        consistent(ab2, bc2, ac2),
    ensures
        consistent(then(ab1, ab2), then(bc1, bc2), then(ac1, ac2)),
{
}

/// Lexicographic orders of sequences inherit being a total preorder.
pub proof fn lemma_lex_order_props<T>(a: Seq<T>, b: Seq<T>, c: Seq<T>, elem: spec_fn(T, T) -> Order)
    requires
        is_total_preorder(elem),
    ensures
        lex_order(a, b, elem) == reverse(lex_order(b, a, elem)),
        consistent(lex_order(a, b, elem), lex_order(b, c, elem), lex_order(a, c, elem)),
    decreases a.len(),
{
    if a.len() > 0 && b.len() > 0 && c.len() > 0 {
        lemma_lex_order_props(a.drop_first(), b.drop_first(), c.drop_first(), elem);
        assert(elem(a[0], b[0]) == reverse(elem(b[0], a[0])));
        assert(consistent(elem(a[0], b[0]), elem(b[0], c[0]), elem(a[0], c[0])));
        assert(elem(a[0], c[0]) == reverse(elem(c[0], a[0])));
        assert(consistent(elem(c[0], b[0]), elem(b[0], a[0]), elem(c[0], a[0])));
    } else if a.len() > 0 && b.len() > 0 {
        lemma_lex_order_props(a.drop_first(), b.drop_first(), c, elem);
        assert(elem(a[0], b[0]) == reverse(elem(b[0], a[0])));
    }
}

/// The byte order is a total preorder.
pub proof fn lemma_byte_order_total_preorder()
    ensures
        is_total_preorder(byte_order_fn()),
{
}

/// Properties of the string order for three strings.
pub proof fn lemma_str_order_props(a: Seq<char>, b: Seq<char>, c: Seq<char>)
    ensures
        str_order(a, b) == reverse(str_order(b, a)),
        consistent(str_order(a, b), str_order(b, c), str_order(a, c)),
{
    reveal(str_order);
    lemma_byte_order_total_preorder();
    lemma_lex_order_props(
        encode_utf8(a),
        encode_utf8(b),
        encode_utf8(c),
        byte_order_fn(),
    );
}

/// The order of strings (taken by their views) is a total preorder.
pub proof fn lemma_string_order_total_preorder()
    ensures
        is_total_preorder(string_order_fn()),
{
    let ord = string_order_fn();
    assert forall|a: String, b: String| #[trigger] ord(a, b) == reverse(ord(b, a)) by {
        lemma_str_order_props(a@, b@, a@);
    }
    assert forall|a: String, b: String, c: String| #[trigger]
        consistent(ord(a, b), ord(b, c), ord(a, c)) by {
        lemma_str_order_props(a@, b@, c@);
    }
}

/// Properties of the order of lists of strings for three lists.
pub proof fn lemma_strings_order_props(a: Seq<String>, b: Seq<String>, c: Seq<String>)
    ensures
        strings_order(a, b) == reverse(strings_order(b, a)),
        consistent(strings_order(a, b), strings_order(b, c), strings_order(a, c)),
{
    reveal(strings_order);
    lemma_string_order_total_preorder();
    lemma_lex_order_props(a, b, c, string_order_fn());
}

/// Properties of the order of lists of lists of strings for three lists.
pub proof fn lemma_string_lists_order_props(
    a: Seq<Vec<String>>,
    b: Seq<Vec<String>>,
    c: Seq<Vec<String>>,
)
    ensures
        string_lists_order(a, b) == reverse(string_lists_order(b, a)),
        consistent(string_lists_order(a, b), string_lists_order(b, c), string_lists_order(a, c)),
{
    reveal(string_lists_order);
    let ord = strings_order_fn();
    assert forall|x: Vec<String>, y: Vec<String>| #[trigger] ord(x, y) == reverse(ord(y, x)) by {
        lemma_strings_order_props(x@, y@, x@);
    }
    assert forall|x: Vec<String>, y: Vec<String>, z: Vec<String>| #[trigger]
        consistent(ord(x, y), ord(y, z), ord(x, z)) by {
        lemma_strings_order_props(x@, y@, z@);
    }
    lemma_lex_order_props(a, b, c, ord);
}

/// Sequences whose elements compare equal pairwise compare equal.
pub proof fn lemma_lex_order_equal<T>(a: Seq<T>, b: Seq<T>, elem: spec_fn(T, T) -> Order)
    requires
        a.len() == b.len(),
        forall|i: int| 0 <= i < a.len() ==> elem(a[i], b[i]) == Order::Equal,
    ensures
        lex_order(a, b, elem) == Order::Equal,
    decreases a.len(),
{
    if a.len() > 0 {
        assert(elem(a[0], b[0]) == Order::Equal);
        assert forall|i: int| 0 <= i < a.drop_first().len() implies elem(
            a.drop_first()[i],
            b.drop_first()[i],
        ) == Order::Equal by {
            assert(elem(a[i + 1], b[i + 1]) == Order::Equal);
        }
        lemma_lex_order_equal(a.drop_first(), b.drop_first(), elem);
    }
}

/// Sequences that compare equal have the same length and elements that
/// compare equal pairwise.
pub proof fn lemma_lex_order_equal_inv<T>(a: Seq<T>, b: Seq<T>, elem: spec_fn(T, T) -> Order)
    requires
        lex_order(a, b, elem) == Order::Equal,
    ensures
        a.len() == b.len(),
        forall|i: int| 0 <= i < a.len() ==> elem(a[i], b[i]) == Order::Equal,
    decreases a.len(),
{
    if a.len() > 0 {
        lemma_lex_order_equal_inv(a.drop_first(), b.drop_first(), elem);
        assert forall|i: int| 0 <= i < a.len() implies elem(a[i], b[i]) == Order::Equal by {
            if i > 0 {
                assert(a.drop_first()[i - 1] == a[i] && b.drop_first()[i - 1] == b[i]);
            }
        }
    } else if b.len() > 0 {
        assert(lex_order(a, b, elem) == Order::Less);
    }
}

/// Strings that compare equal have the same contents.
pub proof fn lemma_str_order_equal_inv(a: Seq<char>, b: Seq<char>)
    requires
        str_order(a, b) == Order::Equal,
    ensures
        a == b,
{
    reveal(str_order);
    lemma_lex_order_equal_inv(encode_utf8(a), encode_utf8(b), byte_order_fn());
    assert(encode_utf8(a) =~= encode_utf8(b)) by {
        assert forall|i: int| 0 <= i < encode_utf8(a).len() implies encode_utf8(a)[i] == encode_utf8(
            b,
        )[i] by {
            assert((byte_order_fn())(encode_utf8(a)[i], encode_utf8(b)[i]) == Order::Equal);
        }
    }
    vstd::utf8::encode_utf8_decode_utf8(a);
    vstd::utf8::encode_utf8_decode_utf8(b);
}

/// Lists of strings that compare equal have the same contents, string by
/// string.
pub proof fn lemma_strings_order_equal_inv(a: Seq<String>, b: Seq<String>)
    requires
        strings_order(a, b) == Order::Equal,
    ensures
        a.len() == b.len(),
        forall|i: int| 0 <= i < a.len() ==> (#[trigger] a[i])@ == b[i]@,
{
    reveal(strings_order);
    lemma_lex_order_equal_inv(a, b, string_order_fn());
    assert forall|i: int| 0 <= i < a.len() implies (#[trigger] a[i])@ == b[i]@ by {
        assert((string_order_fn())(a[i], b[i]) == Order::Equal);
        lemma_str_order_equal_inv(a[i]@, b[i]@);
    }
}

/// Lists of lists of strings that compare equal have the same contents.
pub proof fn lemma_string_lists_order_equal_inv(a: Seq<Vec<String>>, b: Seq<Vec<String>>)
    requires
        string_lists_order(a, b) == Order::Equal,
    ensures
        a.len() == b.len(),
        forall|i: int|
            0 <= i < a.len() ==> (#[trigger] a[i])@.len() == b[i]@.len() && forall|j: int|
                0 <= j < a[i]@.len() ==> (#[trigger] a[i]@[j])@ == b[i]@[j]@,
{
    reveal(string_lists_order);
    lemma_lex_order_equal_inv(a, b, strings_order_fn());
    assert forall|i: int| 0 <= i < a.len() implies (#[trigger] a[i])@.len() == b[i]@.len() && forall|j: int|
        0 <= j < a[i]@.len() ==> (#[trigger] a[i]@[j])@ == b[i]@[j]@ by {
        assert((strings_order_fn())(a[i], b[i]) == Order::Equal);
        lemma_strings_order_equal_inv(a[i]@, b[i]@);
    }
}

/// Strings with the same contents compare equal.
pub proof fn lemma_str_order_same(a: Seq<char>)
    ensures
        str_order(a, a) == Order::Equal,
{
    lemma_str_order_props(a, a, a);
}

/// Lists of strings with the same contents, string by string, compare equal.
pub proof fn lemma_strings_order_same(a: Seq<String>, b: Seq<String>)
    requires
        a.len() == b.len(),
        forall|i: int| 0 <= i < a.len() ==> (#[trigger] a[i])@ == b[i]@,
    ensures
        strings_order(a, b) == Order::Equal,
{
    reveal(strings_order);
    assert forall|i: int| 0 <= i < a.len() implies (string_order_fn())(a[i], b[i]) == Order::Equal by {
        lemma_str_order_same(a[i]@);
    }
    lemma_lex_order_equal(a, b, string_order_fn());
}

/// Lists of lists of strings with the same contents compare equal.
pub proof fn lemma_string_lists_order_same(a: Seq<Vec<String>>, b: Seq<Vec<String>>)
    requires
        a.len() == b.len(),
        forall|i: int|
            0 <= i < a.len() ==> (#[trigger] a[i])@.len() == b[i]@.len() && forall|j: int|
                0 <= j < a[i]@.len() ==> (#[trigger] a[i]@[j])@ == b[i]@[j]@,
    ensures
        string_lists_order(a, b) == Order::Equal,
{
    reveal(string_lists_order);
    assert forall|i: int| 0 <= i < a.len() implies (strings_order_fn())(a[i], b[i]) == Order::Equal by {
        assert forall|j: int| 0 <= j < a[i]@.len() implies (#[trigger] a[i]@[j])@ == b[i]@[j]@ by {}
        lemma_strings_order_same(a[i]@, b[i]@);
    }
    lemma_lex_order_equal(a, b, strings_order_fn());
}

/// One step of a lexicographic comparison from the front.
proof fn lemma_lex_order_step<T>(a: Seq<T>, b: Seq<T>, i: int, elem: spec_fn(T, T) -> Order)
    requires
        0 <= i < a.len(),
        i < b.len(),
    ensures
        lex_order(a.skip(i), b.skip(i), elem) == then(
            elem(a[i], b[i]),
            lex_order(a.skip(i + 1), b.skip(i + 1), elem),
        ),
{
    assert(a.skip(i).drop_first() =~= a.skip(i + 1));
    assert(b.skip(i).drop_first() =~= b.skip(i + 1));
}

/// The lexicographic order of byte sequences is that of Rust's `Ord` for
/// byte slices and strings: `a` comes first exactly when, at the first
/// position where they differ, the byte of `a` is the smaller number, or when
/// `a` is a proper prefix of `b`; they compare equal exactly when they are the
/// same sequence; and `a` comes last exactly when `b` comes first.
pub proof fn lemma_byte_lex_order(a: Seq<u8>, b: Seq<u8>)
    ensures
        lex_order(a, b, byte_order_fn()) == Order::Less <==> ((exists|i: int|
            #![trigger a[i]]
            0 <= i < a.len() && i < b.len() && a[i] < b[i] && forall|j: int|
                #![trigger a[j]]
                0 <= j < i ==> a[j] == b[j]) || (a.len() < b.len() && forall|j: int|
            #![trigger a[j]]
            0 <= j < a.len() ==> a[j] == b[j])),
        lex_order(a, b, byte_order_fn()) == Order::Equal <==> a == b,
        lex_order(a, b, byte_order_fn()) == Order::Greater <==> lex_order(b, a, byte_order_fn())
            == Order::Less,
    decreases a.len(),
{
    let elem = byte_order_fn();
    lemma_byte_order_total_preorder();
    lemma_lex_order_props(a, b, a, elem);
    if a.len() == 0 {
        if b.len() == 0 {
            assert(a =~= b);
        } else {
            assert(a != b);
        }
    } else if b.len() == 0 {
        assert(a != b);
    } else {
        let ta = a.drop_first();
        let tb = b.drop_first();
        lemma_byte_lex_order(ta, tb);
        if a[0] < b[0] {
            assert(lex_order(a, b, elem) == Order::Less);
            assert(0 < a.len() && 0 < b.len() && a[0] < b[0] && forall|j: int|
                #![trigger a[j]]
                0 <= j < 0 ==> a[j] == b[j]);
            assert(a != b);
        } else if a[0] > b[0] {
            assert(lex_order(a, b, elem) == Order::Greater);
            assert(a[0] != b[0]);
            assert(a != b);
            assert forall|i: int|
                #![trigger a[i]]
                0 <= i < a.len() && i < b.len() && a[i] < b[i] implies !(forall|j: int|
                #![trigger a[j]]
                0 <= j < i ==> a[j] == b[j]) by {
                if i > 0 {
                    assert(a[0] != b[0]);
                }
            }
            assert(!(forall|j: int| #![trigger a[j]] 0 <= j < a.len() ==> a[j] == b[j])) by {
                assert(a[0] != b[0]);
            }
        } else {
            assert(a[0] == b[0]);
            assert(lex_order(a, b, elem) == lex_order(ta, tb, elem));
            // the first difference of `a` and `b` is one past that of their tails
            if exists|i: int|
                #![trigger ta[i]]
                0 <= i < ta.len() && i < tb.len() && ta[i] < tb[i] && forall|j: int|
                    #![trigger ta[j]]
                    0 <= j < i ==> ta[j] == tb[j] {
                let i = choose|i: int|
                    #![trigger ta[i]]
                    0 <= i < ta.len() && i < tb.len() && ta[i] < tb[i] && forall|j: int|
                        #![trigger ta[j]]
                        0 <= j < i ==> ta[j] == tb[j];
                assert(a[i + 1] == ta[i] && b[i + 1] == tb[i]);
                assert forall|j: int| #![trigger a[j]] 0 <= j < i + 1 implies a[j] == b[j] by {
                    if j > 0 {
                        assert(a[j] == ta[j - 1] && b[j] == tb[j - 1]);
                    }
                }
            }
            if exists|i: int|
                #![trigger a[i]]
                0 <= i < a.len() && i < b.len() && a[i] < b[i] && forall|j: int|
                    #![trigger a[j]]
                    0 <= j < i ==> a[j] == b[j] {
                let i = choose|i: int|
                    #![trigger a[i]]
                    0 <= i < a.len() && i < b.len() && a[i] < b[i] && forall|j: int|
                        #![trigger a[j]]
                        0 <= j < i ==> a[j] == b[j];
                assert(i > 0);
                assert(ta[i - 1] == a[i] && tb[i - 1] == b[i]);
                assert forall|j: int| #![trigger ta[j]] 0 <= j < i - 1 implies ta[j] == tb[j] by {
                    assert(ta[j] == a[j + 1] && tb[j] == b[j + 1]);
                }
            }
            if a.len() < b.len() && forall|j: int| #![trigger a[j]] 0 <= j < a.len() ==> a[j] == b[j] {
                assert forall|j: int| #![trigger ta[j]] 0 <= j < ta.len() implies ta[j] == tb[j] by {
                    assert(ta[j] == a[j + 1] && tb[j] == b[j + 1]);
                }
            }
            if ta.len() < tb.len() && forall|j: int| #![trigger ta[j]] 0 <= j < ta.len() ==> ta[j]
                == tb[j] {
                assert forall|j: int| #![trigger a[j]] 0 <= j < a.len() implies a[j] == b[j] by {
                    if j > 0 {
                        assert(a[j] == ta[j - 1] && b[j] == tb[j - 1]);
                    }
                }
            }
            if ta == tb {
                assert(a =~= b) by {
                    assert forall|j: int| 0 <= j < a.len() implies a[j] == b[j] by {
                        if j > 0 {
                            assert(a[j] == ta[j - 1] && b[j] == tb[j - 1]);
                        }
                    }
                }
            }
            if a == b {
                assert(ta =~= tb);
            }
        }
    }
}

/// Strings compare by their UTF-8 encodings, in the lexicographic order of
/// the bytes: the order of Rust's `Ord` for `String`.
pub proof fn lemma_str_order_bytes(a: Seq<char>, b: Seq<char>)
    ensures
        str_order(a, b) == lex_order(encode_utf8(a), encode_utf8(b), byte_order_fn()),
        str_order(a, b) == Order::Equal <==> a == b,
{
    reveal(str_order);
    lemma_byte_lex_order(encode_utf8(a), encode_utf8(b));
    vstd::utf8::encode_utf8_decode_utf8(a);
    vstd::utf8::encode_utf8_decode_utf8(b);
}

/// Compares two byte sequences lexicographically.
pub fn compare_bytes(a: &[u8], b: &[u8]) -> (r: Order)
    ensures
        r == lex_order(a@, b@, byte_order_fn()),
{
    let ghost elem = byte_order_fn();
    let mut i: usize = 0;
    assert(a@.skip(0) =~= a@);
    assert(b@.skip(0) =~= b@);
    while i < a.len() && i < b.len()
        invariant
            i <= a@.len(),
            i <= b@.len(),
            elem == byte_order_fn(),
            lex_order(a@, b@, elem) == lex_order(a@.skip(i as int), b@.skip(i as int), elem),
        decreases a@.len() - i,
    {
        proof {
            lemma_lex_order_step(a@, b@, i as int, elem);
        }
        if a[i] < b[i] {
            return Order::Less;
        } else if a[i] > b[i] {
            return Order::Greater;
        }
        i = i + 1;
    }
    if i < a.len() {
        Order::Greater
    } else if i < b.len() {
        Order::Less
    } else {
        Order::Equal
    }
}

/// Compares two strings by their UTF-8 bytes, as `Ord` for `String` does.
pub fn compare_strings(a: &String, b: &String) -> (r: Order)
    ensures
        r == str_order(a@, b@),
{
    reveal(str_order);
    compare_bytes(a.as_str().as_bytes(), b.as_str().as_bytes())
}

/// Compares two lists of strings lexicographically.
pub fn compare_string_lists(a: &Vec<String>, b: &Vec<String>) -> (r: Order)
    ensures
        r == strings_order(a@, b@),
{
    reveal(strings_order);
    let ghost elem = string_order_fn();
    let mut i: usize = 0;
    assert(a@.skip(0) =~= a@);
    assert(b@.skip(0) =~= b@);
    while i < a.len() && i < b.len()
        invariant
            i <= a@.len(),
            i <= b@.len(),
            elem == string_order_fn(),
            lex_order(a@, b@, elem) == lex_order(a@.skip(i as int), b@.skip(i as int), elem),
        decreases a@.len() - i,
    {
        proof {
            lemma_lex_order_step(a@, b@, i as int, elem);
        }
        proof {
            reveal(strings_order);
        }
        let o = compare_strings(&a[i], &b[i]);
        if o != Order::Equal {
            return o;
        }
        i = i + 1;
    }
    if i < a.len() {
        Order::Greater
    } else if i < b.len() {
        Order::Less
    } else {
        Order::Equal
    }
}

/// Compares two lists of lists of strings lexicographically.
pub fn compare_string_list_lists(a: &Vec<Vec<String>>, b: &Vec<Vec<String>>) -> (r: Order)
    ensures
        r == string_lists_order(a@, b@),
{
    reveal(string_lists_order);
    let ghost elem = strings_order_fn();
    let mut i: usize = 0;
    assert(a@.skip(0) =~= a@);
    assert(b@.skip(0) =~= b@);
    while i < a.len() && i < b.len()
        invariant
            i <= a@.len(),
            i <= b@.len(),
            elem == strings_order_fn(),
            lex_order(a@, b@, elem) == lex_order(a@.skip(i as int), b@.skip(i as int), elem),
        decreases a@.len() - i,
    {
        proof {
            lemma_lex_order_step(a@, b@, i as int, elem);
        }
        proof {
            reveal(string_lists_order);
        }
        let o = compare_string_lists(&a[i], &b[i]);
        if o != Order::Equal {
            return o;
        }
        i = i + 1;
    }
    if i < a.len() {
        Order::Greater
    } else if i < b.len() {
        Order::Less
    } else {
        Order::Equal
    }
}

} // verus!
