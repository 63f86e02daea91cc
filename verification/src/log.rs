//! Structs and functions for the messages and CWE warnings that the checks
//! generate.

use crate::intermediate_representation::Tid;
use crate::order::{
    compare_string_list_lists, compare_string_lists, compare_strings, consistent,
    lemma_str_order_equal_inv, lemma_str_order_props, lemma_string_lists_order_equal_inv,
    lemma_string_lists_order_props, lemma_strings_order_equal_inv, lemma_strings_order_props,
    lemma_then_consistent, reverse, str_order, string_lists_order, strings_order, then, Order,
};
use vstd::multiset::Multiset;
use vstd::prelude::*;

verus! {

/// A CWE warning message.
#[derive(Debug, Clone, PartialEq, Eq, Hash, PartialOrd, Ord, Default)]
pub struct CweWarning {
    /// A short name of the CWE check, e.g. `CWE190`.
    pub name: String,
    /// The version number of the check.
    pub version: String,
    /// Addresses in the binary associated with the CWE warning.
    /// The first address usually denotes the program point where the CWE warning was generated.
    pub addresses: Vec<String>,
    /// Term IDs associated to the CWE warning.
    /// May be more exact than the addresses, e.g. for `Def` terms.
    pub tids: Vec<String>,
    /// Symbol names (usually of extern symbols) associated to the CWE warning.
    pub symbols: Vec<String>,
    /// Other useful information. Content depends on the check that generated the CWE warning.
    pub other: Vec<Vec<String>>,
    /// A short description of the warning that is presented to the user.
    /// Should contain all essential information necessary to understand the warning,
    /// including the address in the binary for which the warning was generated.
    pub description: String,
}

/// The contents of a [`CweWarning`].
pub struct CweWarningView {
    pub name: Seq<char>,
    pub version: Seq<char>,
    pub addresses: Seq<Seq<char>>,
    pub tids: Seq<Seq<char>>,
    pub symbols: Seq<Seq<char>>,
    pub other: Seq<Seq<Seq<char>>>,
    pub description: Seq<char>,
}

/// The contents of a list of strings.
pub open spec fn strings_view(strings: Seq<String>) -> Seq<Seq<char>> {
    strings.map_values(|s: String| s@)
}

impl View for CweWarning {
    type V = CweWarningView;

    open spec fn view(&self) -> CweWarningView {
        CweWarningView {
            name: self.name@,
            version: self.version@,
            addresses: strings_view(self.addresses@),
            tids: strings_view(self.tids@),
            symbols: strings_view(self.symbols@),
            other: self.other@.map_values(|list: Vec<String>| strings_view(list@)),
            description: self.description@,
        }
    }
}

/// The contents of a list of warnings.
pub open spec fn warnings_view(warnings: Seq<CweWarning>) -> Seq<CweWarningView> {
    warnings.map_values(|w: CweWarning| w@)
}

/// The order of CWE warnings: field by field in the order of their
/// declaration, each field ordered lexicographically.
#[verifier::opaque]
pub open spec fn warning_order(a: CweWarning, b: CweWarning) -> Order {
    then(
        str_order(a.name@, b.name@),
        then(
            str_order(a.version@, b.version@),
            then(
                strings_order(a.addresses@, b.addresses@),
                then(
                    strings_order(a.tids@, b.tids@),
                    then(
                        strings_order(a.symbols@, b.symbols@),
                        then(
                            string_lists_order(a.other@, b.other@),
                            str_order(a.description@, b.description@),
                        ),
                    ),
                ),
            ),
        ),
    )
}

/// The warnings are in increasing order.
pub open spec fn warnings_sorted(s: Seq<CweWarning>) -> bool {
    forall|i: int, j: int|
        0 <= i < j < s.len() ==> warning_order(#[trigger] s[i], #[trigger] s[j]) != Order::Greater
}

proof fn lemma_then_reverse(x: Order, y: Order)
    ensures
        then(reverse(x), reverse(y)) == reverse(then(x, y)),
{
}

/// The order of warnings is a total preorder.
pub proof fn lemma_warning_order_props(a: CweWarning, b: CweWarning, c: CweWarning)
    ensures
        warning_order(a, b) == reverse(warning_order(b, a)),
        consistent(warning_order(a, b), warning_order(b, c), warning_order(a, c)),
{
    reveal(warning_order);
    lemma_str_order_props(a.name@, b.name@, c.name@);
    lemma_str_order_props(a.version@, b.version@, c.version@);
    lemma_strings_order_props(a.addresses@, b.addresses@, c.addresses@);
    lemma_strings_order_props(a.tids@, b.tids@, c.tids@);
    lemma_strings_order_props(a.symbols@, b.symbols@, c.symbols@);
    lemma_string_lists_order_props(a.other@, b.other@, c.other@);
    lemma_str_order_props(a.description@, b.description@, c.description@);
    // the reversal, from the innermost field outwards
    lemma_then_reverse(
        string_lists_order(b.other@, a.other@),
        str_order(b.description@, a.description@),
    );
    let r6 = then(
        string_lists_order(b.other@, a.other@),
        str_order(b.description@, a.description@),
    );
    lemma_then_reverse(strings_order(b.symbols@, a.symbols@), r6);
    let r5 = then(strings_order(b.symbols@, a.symbols@), r6);
    lemma_then_reverse(strings_order(b.tids@, a.tids@), r5);
    let r4 = then(strings_order(b.tids@, a.tids@), r5);
    lemma_then_reverse(strings_order(b.addresses@, a.addresses@), r4);
    let r3 = then(strings_order(b.addresses@, a.addresses@), r4);
    lemma_then_reverse(str_order(b.version@, a.version@), r3);
    let r2 = then(str_order(b.version@, a.version@), r3);
    lemma_then_reverse(str_order(b.name@, a.name@), r2);
    // consistency, from the innermost field outwards
    let ab6 = then(
        string_lists_order(a.other@, b.other@),
        str_order(a.description@, b.description@),
    );
    let bc6 = then(
        string_lists_order(b.other@, c.other@),
        str_order(b.description@, c.description@),
    );
    let ac6 = then(
        string_lists_order(a.other@, c.other@),
        str_order(a.description@, c.description@),
    );
    lemma_then_consistent(
        string_lists_order(a.other@, b.other@),
        string_lists_order(b.other@, c.other@),
        string_lists_order(a.other@, c.other@),
        str_order(a.description@, b.description@),
        str_order(b.description@, c.description@),
        str_order(a.description@, c.description@),
    );
    let ab5 = then(strings_order(a.symbols@, b.symbols@), ab6);
    let bc5 = then(strings_order(b.symbols@, c.symbols@), bc6);
    let ac5 = then(strings_order(a.symbols@, c.symbols@), ac6);
    lemma_then_consistent(
        strings_order(a.symbols@, b.symbols@),
        strings_order(b.symbols@, c.symbols@),
        strings_order(a.symbols@, c.symbols@),
        ab6,
        bc6,
        ac6,
    );
    let ab4 = then(strings_order(a.tids@, b.tids@), ab5);
    let bc4 = then(strings_order(b.tids@, c.tids@), bc5);
    let ac4 = then(strings_order(a.tids@, c.tids@), ac5);
    lemma_then_consistent(
        strings_order(a.tids@, b.tids@),
        strings_order(b.tids@, c.tids@),
        strings_order(a.tids@, c.tids@),
        ab5,
        bc5,
        ac5,
    );
    let ab3 = then(strings_order(a.addresses@, b.addresses@), ab4);
    let bc3 = then(strings_order(b.addresses@, c.addresses@), bc4);
    let ac3 = then(strings_order(a.addresses@, c.addresses@), ac4);
    lemma_then_consistent(
        strings_order(a.addresses@, b.addresses@),
        strings_order(b.addresses@, c.addresses@),
        strings_order(a.addresses@, c.addresses@),
        ab4,
        bc4,
        ac4,
    );
    let ab2 = then(str_order(a.version@, b.version@), ab3);
    let bc2 = then(str_order(b.version@, c.version@), bc3);
    let ac2 = then(str_order(a.version@, c.version@), ac3);
    lemma_then_consistent(
        str_order(a.version@, b.version@),
        str_order(b.version@, c.version@),
        str_order(a.version@, c.version@),
        ab3,
        bc3,
        ac3,
    );
    lemma_then_consistent(
        str_order(a.name@, b.name@),
        str_order(b.name@, c.name@),
        str_order(a.name@, c.name@),
        ab2,
        bc2,
        ac2,
    );
}

/// Warnings that compare equal have the same contents.
pub proof fn lemma_warning_order_equal_inv(a: CweWarning, b: CweWarning)
    requires
        warning_order(a, b) == Order::Equal,
    ensures
        a@ == b@,
{
    reveal(warning_order);
    lemma_str_order_equal_inv(a.name@, b.name@);
    lemma_str_order_equal_inv(a.version@, b.version@);
    lemma_strings_order_equal_inv(a.addresses@, b.addresses@);
    lemma_strings_order_equal_inv(a.tids@, b.tids@);
    lemma_strings_order_equal_inv(a.symbols@, b.symbols@);
    lemma_string_lists_order_equal_inv(a.other@, b.other@);
    lemma_str_order_equal_inv(a.description@, b.description@);
    assert(strings_view(a.addresses@) =~= strings_view(b.addresses@));
    assert(strings_view(a.tids@) =~= strings_view(b.tids@));
    assert(strings_view(a.symbols@) =~= strings_view(b.symbols@));
    assert forall|i: int| 0 <= i < a.other@.len() implies strings_view(a.other@[i]@)
        == strings_view(b.other@[i]@) by {
        assert(strings_view(a.other@[i]@) =~= strings_view(b.other@[i]@));
    }
    assert(a.other@.map_values(|list: Vec<String>| strings_view(list@)) =~= b.other@.map_values(
        |list: Vec<String>| strings_view(list@),
    ));
}

impl CweWarning {
    /// Creates a new CweWarning by only setting name, version and description.
    pub fn new(name: String, version: String, description: String) -> (w: CweWarning)
        ensures
            w.name@ == name@,
            w.version@ == version@,
            w.description@ == description@,
            w.addresses@ == Seq::<String>::empty(),
            w.tids@ == Seq::<String>::empty(),
            w.symbols@ == Seq::<String>::empty(),
            w.other@ == Seq::<Vec<String>>::empty(),
    {
        CweWarning {
            name,
            version,
            addresses: Vec::new(),
            tids: Vec::new(),
            symbols: Vec::new(),
            other: Vec::new(),
            description,
        }
    }

    /// Sets the address field of the CweWarning.
    pub fn addresses(self, addresses: Vec<String>) -> (w: CweWarning)
        ensures
            w == (CweWarning { addresses, ..self }),
    {
        CweWarning { addresses, ..self }
    }

    /// Sets the Tids field of the CweWarning.
    pub fn tids(self, tids: Vec<String>) -> (w: CweWarning)
        ensures
            w == (CweWarning { tids, ..self }),
    {
        CweWarning { tids, ..self }
    }

    /// Sets the symbols field of the CweWarning.
    pub fn symbols(self, symbols: Vec<String>) -> (w: CweWarning)
        ensures
            w == (CweWarning { symbols, ..self }),
    {
        CweWarning { symbols, ..self }
    }

    /// Sets the other field of the CweWarning.
    pub fn other(self, other: Vec<Vec<String>>) -> (w: CweWarning)
        ensures
            w == (CweWarning { other, ..self }),
    {
        CweWarning { other, ..self }
    }
}

/// Compares two warnings field by field, as the derived order of the
/// warning fields does.
pub fn compare_warnings(a: &CweWarning, b: &CweWarning) -> (r: Order)
    ensures
        r == warning_order(*a, *b),
{
    reveal(warning_order);
    let o = compare_strings(&a.name, &b.name);
    if o != Order::Equal {
        return o;
    }
    let o = compare_strings(&a.version, &b.version);
    if o != Order::Equal {
        return o;
    }
    let o = compare_string_lists(&a.addresses, &b.addresses);
    if o != Order::Equal {
        return o;
    }
    let o = compare_string_lists(&a.tids, &b.tids);
    if o != Order::Equal {
        return o;
    }
    let o = compare_string_lists(&a.symbols, &b.symbols);
    if o != Order::Equal {
        return o;
    }
    let o = compare_string_list_lists(&a.other, &b.other);
    if o != Order::Equal {
        return o;
    }
    compare_strings(&a.description, &b.description)
}

/// Sorts warnings into increasing order. Warnings that compare equal keep
/// their relative order.
pub fn sort_warnings(warnings: Vec<CweWarning>) -> (sorted: Vec<CweWarning>)
    ensures
        sorted@.to_multiset() == warnings@.to_multiset(),
        warnings_sorted(sorted@),
{
    let mut input = warnings;
    let mut sorted: Vec<CweWarning> = Vec::new();
    proof {
        sorted@.to_multiset_ensures();
        vstd::multiset::lemma_multiset_empty_len(sorted@.to_multiset());
        assert(sorted@.to_multiset().add(input@.to_multiset()) =~= input@.to_multiset());
    }
    while input.len() > 0
        invariant
            sorted@.to_multiset().add(input@.to_multiset()) == warnings@.to_multiset(),
            warnings_sorted(sorted@),
        decreases input@.len(),
    {
        let ghost before_input = input@;
        let w = match input.pop() {
            Some(w) => w,
            None => {
                assert(false);
                return sorted;
            },
        };
        proof {
            assert(before_input =~= input@.push(w));
            vstd::seq_lib::to_multiset_build(input@, w);
        }
        let mut p: usize = 0;
        loop
            invariant
                p <= sorted@.len(),
                forall|k: int| 0 <= k < p ==> warning_order(w, #[trigger] sorted@[k]) == Order::Greater,
            ensures
                p <= sorted@.len(),
                forall|k: int| 0 <= k < p ==> warning_order(w, #[trigger] sorted@[k]) == Order::Greater,
                p < sorted@.len() ==> warning_order(w, sorted@[p as int]) != Order::Greater,
            decreases sorted@.len() - p,
        {
            if p >= sorted.len() {
                break ;
            }
            if compare_warnings(&w, &sorted[p]) != Order::Greater {
                break ;
            }
            p = p + 1;
        }
        let ghost before = sorted@;
        sorted.insert(p, w);
        proof {
            vstd::seq_lib::to_multiset_insert(before, p as int, w);
            assert(sorted@ == before.insert(p as int, w));
            assert(sorted@.to_multiset().add(input@.to_multiset()) =~= before.to_multiset().add(
                before_input.to_multiset(),
            ));
            assert forall|i: int, j: int| 0 <= i < j < sorted@.len() implies warning_order(
                #[trigger] sorted@[i],
                #[trigger] sorted@[j],
            ) != Order::Greater by {
                if j < p {
                    assert(sorted@[i] == before[i] && sorted@[j] == before[j]);
                } else if j == p {
                    assert(sorted@[i] == before[i]);
                    lemma_warning_order_props(w, before[i], w);
                } else if i == p {
                    assert(sorted@[j] == before[j - 1]);
                    lemma_warning_order_props(w, before[p as int], before[j - 1]);
                    if j - 1 > p {
                        assert(warning_order(before[p as int], before[j - 1]) != Order::Greater);
                    }
                } else if i < p {
                    assert(sorted@[i] == before[i] && sorted@[j] == before[j - 1]);
                } else {
                    assert(sorted@[i] == before[i - 1] && sorted@[j] == before[j - 1]);
                }
            }
        }
    }
    proof {
        input@.to_multiset_ensures();
        vstd::multiset::lemma_multiset_empty_len(input@.to_multiset());
    }
    assert(input@.to_multiset() =~= Multiset::<CweWarning>::empty());
    assert(sorted@.to_multiset().add(Multiset::<CweWarning>::empty()) =~= sorted@.to_multiset());
    sorted
}

/// The severity/kind of a log message.
#[derive(Debug, Clone, Copy, PartialEq, Eq, Hash, Structural)]
pub enum LogLevel {
    /// Messages intended for debugging.
    Debug,
    /// Errors encountered during analysis.
    Error,
    /// Non-error messages intended for the user.
    Info,
}

/// A generic log message.
#[derive(Debug, Clone, Hash)]
pub struct LogMessage {
    /// The log message.
    pub text: String,
    /// The severity/type of the log message.
    pub level: LogLevel,
    /// The location inside the binary that the message is related to.
    pub location: Option<Tid>,
    /// The analysis where the message originated.
    pub source: Option<String>,
}

impl LogMessage {
    /// Create a new `Info`-level log message
    pub fn new_info(text: String) -> (m: LogMessage)
        ensures
            m.text@ == text@,
            m.level == LogLevel::Info,
            m.location is None,
            m.source is None,
    {
        LogMessage { text, level: LogLevel::Info, location: None, source: None }
    }

    /// Create a new `Error`-level log message
    pub fn new_error(text: String) -> (m: LogMessage)
        ensures
            m.text@ == text@,
            m.level == LogLevel::Error,
            m.location is None,
            m.source is None,
    {
        LogMessage { text, level: LogLevel::Error, location: None, source: None }
    }

    /// Set the name of the source analysis for the log message.
    pub fn source(self, source: String) -> (m: LogMessage)
        ensures
            m == (LogMessage { source: Some(source), ..self }),
    {
        LogMessage { source: Some(source), ..self }
    }
}

} // verus!
