//! The runtime value algebra: numbers, characters, lists, multisets,
//! captured quotes and the poison marker.  Strings are lists of characters,
//! not a kind of their own.

use vstd::prelude::*;
use crate::editor::{Cursor, CursorView, cursor_view};
use crate::polyset::{Polyset, pairs_view, lemma_pairs_view, vals_view, lemma_vals_view};
use crate::order::StrictOrder;

verus! {

/// One runtime value.  A multiset payload is kept as its sorted
/// (element, multiplicity) pairs; a quote is a captured cursor position.
#[derive(Debug)]
pub enum Value {
    Poison,
    Char(char),
    Num(i64),
    List(Vec<Value>),
    Mset(Vec<(Value, i64)>),
    Quote(Cursor),
}

/// The mathematical model of a value.
#[verifier::ext_equal]
pub enum ValueView {
    Poison,
    Char { c: char },
    Num { n: int },
    List { items: Seq<ValueView> },
    Mset { pairs: Seq<(ValueView, int)> },
    Quote { pos: Box<CursorView> },
}

/// The model of one value.
pub open spec fn value_view(v: Value) -> ValueView
    decreases v,
{
    match v {
        Value::Poison => ValueView::Poison,
        Value::Char(c) => ValueView::Char { c },
        Value::Num(n) => ValueView::Num { n: n as int },
        Value::List(items) => ValueView::List { items: values_view(items@) },
        Value::Mset(pairs) => ValueView::Mset { pairs: value_pairs_view(pairs@) },
        Value::Quote(c) => ValueView::Quote { pos: Box::new(cursor_view(c)) },
    }
}

/// The models of a sequence of values, element by element.
pub open spec fn values_view(s: Seq<Value>) -> Seq<ValueView>
    decreases s,
{
    if s.len() == 0 {
        Seq::empty()
    } else {
        values_view(s.subrange(0, s.len() - 1)).push(value_view(s[s.len() - 1]))
    }
}

/// The models of a sequence of (value, multiplicity) pairs.
pub open spec fn value_pairs_view(s: Seq<(Value, i64)>) -> Seq<(ValueView, int)>
    decreases s,
{
    if s.len() == 0 {
        Seq::empty()
    } else {
        value_pairs_view(s.subrange(0, s.len() - 1)).push(
            (value_view(s[s.len() - 1].0), s[s.len() - 1].1 as int),
        )
    }
}

/// `values_view` maps `value_view` over the sequence.
pub proof fn lemma_values_view(s: Seq<Value>)
    ensures
        values_view(s).len() == s.len(),
        forall|i: int| 0 <= i < s.len() ==> values_view(s)[i] == value_view(s[i]),
    decreases s,
{
    if s.len() > 0 {
        lemma_values_view(s.subrange(0, s.len() - 1));
    }
}

/// `value_pairs_view` maps the view over the pairs.
pub proof fn lemma_value_pairs_view(s: Seq<(Value, i64)>)
    ensures
        value_pairs_view(s).len() == s.len(),
        forall|i: int| 0 <= i < s.len()
            ==> value_pairs_view(s)[i] == (value_view(s[i].0), s[i].1 as int),
    decreases s,
{
    if s.len() > 0 {
        lemma_value_pairs_view(s.subrange(0, s.len() - 1));
    }
}

impl View for Value {
    type V = ValueView;

    open spec fn view(&self) -> ValueView {
        value_view(*self)
    }
}

/// The generic pair view of the multiset agrees with the value pair view.
pub proof fn lemma_polyset_view_agrees(s: Seq<(Value, i64)>)
    ensures
        pairs_view::<Value>(s) == value_pairs_view(s),
{
    lemma_pairs_view::<Value>(s);
    lemma_value_pairs_view(s);
    assert(pairs_view::<Value>(s) =~= value_pairs_view(s));
}

/// The generic element view agrees with the value view, element by element.
pub proof fn lemma_polyset_vals_agree(s: Seq<Value>)
    ensures
        vals_view::<Value>(s) == values_view(s),
{
    lemma_vals_view::<Value>(s);
    lemma_values_view(s);
    assert(vals_view::<Value>(s) =~= values_view(s));
}

/// A single character as a character value.
pub open spec fn char_item(c: char) -> ValueView {
    ValueView::Char { c }
}

/// A character wrapped as a runtime value.
pub open spec fn char_value(c: char) -> Value {
    Value::Char(c)
}

/// Characters as character values, element by element.
pub open spec fn chars_values(s: Seq<char>) -> Seq<ValueView>
    decreases s,
{
    if s.len() == 0 {
        Seq::empty()
    } else {
        chars_values(s.subrange(0, s.len() - 1)).push(char_item(s[s.len() - 1]))
    }
}

/// A character value's model is the character item.
pub proof fn lemma_char_value(c: char)
    ensures
        value_view(char_value(c)) == char_item(c),
{
}

/// `chars_values` maps each character to a character value.
pub proof fn lemma_chars_values(s: Seq<char>)
    ensures
        chars_values(s).len() == s.len(),
        forall|i: int| 0 <= i < s.len() ==> chars_values(s)[i] == char_item(s[i]),
    decreases s,
{
    if s.len() > 0 {
        lemma_chars_values(s.subrange(0, s.len() - 1));
    }
}

/// The characters of a sequence of character items.
pub open spec fn items_chars(items: Seq<ValueView>) -> Seq<char>
    decreases items,
{
    if items.len() == 0 {
        Seq::empty()
    } else {
        items_chars(items.subrange(0, items.len() - 1)).push(items[items.len() - 1]->Char_c)
    }
}

/// `items_chars` reads each character item back.
pub proof fn lemma_items_chars(items: Seq<ValueView>)
    ensures
        items_chars(items).len() == items.len(),
        forall|i: int| 0 <= i < items.len() ==> items_chars(items)[i] == items[i]->Char_c,
    decreases items,
{
    if items.len() > 0 {
        lemma_items_chars(items.subrange(0, items.len() - 1));
    }
}

/// The view of a string value: a list of characters.
pub open spec fn str_view(s: Seq<char>) -> ValueView {
    ValueView::List { items: chars_values(s) }
}

/// A list value's model over given items.
pub open spec fn list_of(items: Seq<ValueView>) -> ValueView {
    ValueView::List { items }
}

/// What a value yields when read as a character.
pub open spec fn as_char_v(v: ValueView) -> Option<char> {
    match v {
        ValueView::Char { c } => Some(c),
        _ => None,
    }
}

/// What a value yields when read as a number.
pub open spec fn as_num_v(v: ValueView) -> Option<int> {
    match v {
        ValueView::Num { n } => Some(n),
        _ => None,
    }
}

/// What a value yields when read as a boolean: exactly zero and one.
pub open spec fn as_bool_v(v: ValueView) -> Option<bool> {
    match v {
        ValueView::Num { n } => {
            if n == 0 {
                Some(false)
            } else if n == 1 {
                Some(true)
            } else {
                None
            }
        },
        _ => None,
    }
}

/// What a value yields when read as a list.
pub open spec fn as_list_v(v: ValueView) -> Option<Seq<ValueView>> {
    match v {
        ValueView::List { items } => Some(items),
        _ => None,
    }
}

/// What a value yields when read as a multiset: a list is collected, a
/// multiset is itself.
pub open spec fn as_set_v(v: ValueView) -> Option<Seq<(ValueView, int)>> {
    match v {
        ValueView::List { items } => Some(crate::polyset::ps_from_seq::<Value>(items)),
        ValueView::Mset { pairs } => Some(pairs),
        _ => None,
    }
}

/// What a value yields when read as a captured quote.
pub open spec fn as_quote_v(v: ValueView) -> Option<CursorView> {
    match v {
        ValueView::Quote { pos } => Some(*pos),
        _ => None,
    }
}

/// Whether every item of a list is a character.
pub open spec fn all_chars(items: Seq<ValueView>) -> bool {
    forall|i: int| 0 <= i < items.len() ==> items[i] is Char
}

/// A character wrapped in an option.
pub open spec fn some_char(c: char) -> Option<char> {
    Some(c)
}

/// What a value yields when read as a string: a list all of whose items
/// are characters.
pub open spec fn as_string_v(v: ValueView) -> Option<Seq<char>> {
    match v {
        ValueView::List { items } => {
            if all_chars(items) {
                Some(items_chars(items))
            } else {
                None
            }
        },
        _ => None,
    }
}

/// Reading a character out of a value's model follows its variant.
pub proof fn lemma_value_as_char(v: Value)
    ensures
        v matches Value::Char(c) ==> as_char_v(value_view(v)) == some_char(c),
        !(v matches Value::Char(_)) ==> as_char_v(value_view(v) ) is None,
        !(v matches Value::Char(_)) ==> !(value_view(v) is Char),
        v matches Value::Char(c) ==> value_view(v) is Char && value_view(v)->Char_c == c,
{
}

/// One non-character item spoils a character list.
pub proof fn lemma_not_all_chars(items: Seq<ValueView>, j: int)
    requires
        0 <= j < items.len(),
        !(items[j] is Char),
    ensures
        !all_chars(items),
{
}

/// A complete character read-out pins the string down.
pub proof fn lemma_chars_complete(items: Seq<ValueView>, cs: Seq<char>)
    requires
        items.len() == cs.len(),
        forall|j: int| 0 <= j < items.len() ==> as_char_v(#[trigger] items[j]) == some_char(cs[j]),
    ensures
        all_chars(items),
        items_chars(items) == cs,
{
    assert forall|j: int| 0 <= j < items.len() implies items[j] is Char by {
        assert(as_char_v(items[j]) == some_char(cs[j]));
    }
    lemma_items_chars(items);
    assert forall|j: int| 0 <= j < items.len() implies items_chars(items)[j] == cs[j] by {
        assert(as_char_v(items[j]) == some_char(cs[j]));
    }
    assert(items_chars(items) =~= cs);
}

impl Value {
    /// The poison marker: the result of a failed primitive.
    pub fn new_poison() -> (r: Value)
        ensures
            r@ == ValueView::Poison,
    {
        Value::Poison
    }

    /// A character value.
    pub fn new_char(c: char) -> (r: Value)
        ensures
            r@ == (ValueView::Char { c }),
    {
        Value::Char(c)
    }

    /// A number value.
    pub fn new_i64(n: i64) -> (r: Value)
        ensures
            r@ == (ValueView::Num { n: n as int }),
    {
        Value::Num(n)
    }

    /// A number value; numbers are machine integers.
    pub fn new_num(n: i64) -> (r: Value)
        ensures
            r@ == (ValueView::Num { n: n as int }),
    {
        Value::Num(n)
    }

    /// A boolean value: one for true, zero for false.
    pub fn new_bool(b: bool) -> (r: Value)
        ensures
            r@ == (ValueView::Num { n: if b { 1int } else { 0int } }),
    {
        if b {
            Value::Num(1)
        } else {
            Value::Num(0)
        }
    }

    /// A list value.
    pub fn new_list(items: Vec<Value>) -> (r: Value)
        ensures
            r@ == (ValueView::List { items: values_view(items@) }),
    {
        Value::List(items)
    }

    /// A multiset value, from its sorted pairs.
    pub fn new_set(set: Polyset<Value>) -> (r: Value)
        ensures
            r@ == (ValueView::Mset { pairs: set@ }),
    {
        let pairs = set.into_pairs();
        proof {
            lemma_polyset_view_agrees(pairs@);
        }
        Value::Mset(pairs)
    }

    /// A quote value: a captured cursor position.
    pub fn new_quote(c: Cursor) -> (r: Value)
        ensures
            r@ == (ValueView::Quote { pos: Box::new(cursor_view(c)) }),
    {
        Value::Quote(c)
    }

    /// A string value: one character value per character.
    pub fn new_str_chars(cs: Vec<char>) -> (r: Value)
        ensures
            r@ == str_view(cs@),
    {
        let items = char_values_of(&cs);
        Value::List(items)
    }

    /// A string value, from a string slice.
    pub fn new_str(s: &str) -> (r: Value)
        ensures
            r@ == str_view(s@),
    {
        Value::new_str_chars(crate::text::chars_of(s))
    }

    /// Read as a character.
    pub fn as_char(&self) -> (r: Option<char>)
        ensures
            r == as_char_v(self@),
    {
        match self {
            Value::Char(c) => Some(*c),
            _ => None,
        }
    }

    /// Read as a machine integer.
    pub fn as_i64(&self) -> (r: Option<i64>)
        ensures
            match r {
                Some(n) => as_num_v(self@) == Some(n as int),
                None => as_num_v(self@) is None,
            },
    {
        match self {
            Value::Num(n) => Some(*n),
            _ => None,
        }
    }

    /// Read as a number; numbers are machine integers.
    pub fn as_num(&self) -> (r: Option<i64>)
        ensures
            match r {
                Some(n) => as_num_v(self@) == Some(n as int),
                None => as_num_v(self@) is None,
            },
    {
        self.as_i64()
    }

    /// Read as an unsigned size, when the number is in range.
    pub fn as_usize(&self) -> (r: Option<usize>)
        ensures
            match r {
                Some(n) => as_num_v(self@) == Some(n as int),
                None => match as_num_v(self@) {
                    Some(n) => !(0 <= n <= usize::MAX),
                    None => true,
                },
            },
    {
        match self {
            Value::Num(n) => {
                if *n >= 0 && (*n as u64) <= (usize::MAX as u64) {
                    Some(*n as usize)
                } else {
                    None
                }
            },
            _ => None,
        }
    }

    /// Read as a boolean: exactly zero or one qualifies.
    pub fn as_bool(&self) -> (r: Option<bool>)
        ensures
            r == as_bool_v(self@),
    {
        match self {
            Value::Num(n) => {
                if *n == 0 {
                    Some(false)
                } else if *n == 1 {
                    Some(true)
                } else {
                    None
                }
            },
            _ => None,
        }
    }

    /// Read as a list, copying the items.
    pub fn as_list(&self) -> (r: Option<Vec<Value>>)
        ensures
            match r {
                Some(items) => as_list_v(self@) == Some(values_view(items@)),
                None => as_list_v(self@) is None,
            },
    {
        match self {
            Value::List(items) => Some(duplicate_values(items)),
            _ => None,
        }
    }

    /// Borrow the items of a list.
    pub fn as_slice(&self) -> (r: Option<&Vec<Value>>)
        ensures
            match r {
                Some(items) => as_list_v(self@) == Some(values_view(items@)),
                None => as_list_v(self@) is None,
            },
    {
        match self {
            Value::List(items) => Some(items),
            _ => None,
        }
    }

    /// Borrow the captured cursor of a quote.
    pub fn as_quote(&self) -> (r: Option<&Cursor>)
        ensures
            match r {
                Some(c) => as_quote_v(self@) == Some(cursor_view(*c)),
                None => as_quote_v(self@) is None,
            },
    {
        match self {
            Value::Quote(c) => Some(c),
            _ => None,
        }
    }

    /// Read as a string: a list whose items are all characters.
    pub fn as_string(&self) -> (r: Option<Vec<char>>)
        ensures
            match r {
                Some(cs) => as_string_v(self@) == Some(cs@),
                None => as_string_v(self@) is None,
            },
    {
        match self {
            Value::List(items) => try_chars(items),
            _ => None,
        }
    }

    /// Read as a multiset: a list is collected, a multiset copied.
    pub fn as_set(&self) -> (r: Option<Polyset<Value>>)
        ensures
            match r {
                Some(ps) => as_set_v(self@) == Some(ps@),
                None => as_set_v(self@) is None,
            },
    {
        match self {
            Value::List(items) => {
                let copy = duplicate_values(items);
                let ghost cv: Seq<Value> = copy@;
                let ps = Polyset::from_vec(copy);
                proof {
                    lemma_polyset_vals_agree(cv);
                }
                Some(ps)
            },
            Value::Mset(pairs) => {
                let copy = duplicate_value_pairs(pairs);
                let ghost cv: Seq<(Value, i64)> = copy@;
                let ps = Polyset::from_pairs(copy);
                proof {
                    lemma_polyset_view_agrees(cv);
                }
                Some(ps)
            },
            _ => None,
        }
    }

    /// A structural copy: the copy has the same model as the original.
    pub fn duplicate(&self) -> (r: Value)
        ensures
            r@ == self@,
        decreases *self,
    {
        match self {
            Value::Poison => Value::Poison,
            Value::Char(c) => Value::Char(*c),
            Value::Num(n) => Value::Num(*n),
            Value::List(items) => {
                let r = Value::List(duplicate_values(items));
                assert(r@ =~= self@);
                r
            },
            Value::Mset(pairs) => {
                let r = Value::Mset(duplicate_value_pairs(pairs));
                assert(r@ =~= self@);
                r
            },
            Value::Quote(c) => Value::Quote(c.duplicate()),
        }
    }
}

/// A structural copy of a sequence of values.
pub fn duplicate_values(items: &Vec<Value>) -> (r: Vec<Value>)
    ensures
        values_view(r@) == values_view(items@),
    decreases items@,
{
    let mut r: Vec<Value> = Vec::new();
    let n = items.len();
    let mut i: usize = 0;
    while i < n
        invariant
            n == items@.len(),
            i <= n,
            values_view(r@) =~= values_view(items@.take(i as int)),
        decreases n - i,
    {
        let ghost r0: Seq<Value> = r@;
        let d = items[i].duplicate();
        r.push(d);
        proof {
            lemma_values_view(r0);
            lemma_values_view(r@);
            lemma_values_view(items@);
            lemma_values_view(items@.take(i as int));
            lemma_values_view(items@.take(i + 1));
            assert forall|k: int| 0 <= k < i + 1 implies values_view(r@)[k] == values_view(
                items@.take(i + 1),
            )[k] by {
                if k < i {
                    assert(values_view(r0)[k] == value_view(r0[k]));
                    assert(values_view(items@.take(i as int))[k] == value_view(
                        items@.take(i as int)[k],
                    ));
                    assert(items@.take(i as int)[k] == items@[k]);
                    assert(values_view(items@.take(i + 1))[k] == value_view(items@.take(i + 1)[k]));
                    assert(items@.take(i + 1)[k] == items@[k]);
                }
            }
            assert(values_view(r@) =~= values_view(items@.take(i + 1)));
        }
        i += 1;
    }
    assert(items@.take(n as int) =~= items@);
    r
}

/// A structural copy of a sequence of (value, multiplicity) pairs.
pub fn duplicate_value_pairs(pairs: &Vec<(Value, i64)>) -> (r: Vec<(Value, i64)>)
    ensures
        value_pairs_view(r@) == value_pairs_view(pairs@),
    decreases pairs@,
{
    let mut r: Vec<(Value, i64)> = Vec::new();
    let n = pairs.len();
    let mut i: usize = 0;
    while i < n
        invariant
            n == pairs@.len(),
            i <= n,
            value_pairs_view(r@) =~= value_pairs_view(pairs@.take(i as int)),
        decreases n - i,
    {
        let ghost r0: Seq<(Value, i64)> = r@;
        let p = &pairs[i];
        let copy = (p.0.duplicate(), p.1);
        r.push(copy);
        proof {
            lemma_value_pairs_view(r0);
            lemma_value_pairs_view(r@);
            lemma_value_pairs_view(pairs@);
            lemma_value_pairs_view(pairs@.take(i as int));
            lemma_value_pairs_view(pairs@.take(i + 1));
            assert forall|k: int| 0 <= k < i + 1 implies value_pairs_view(r@)[k]
                == value_pairs_view(pairs@.take(i + 1))[k] by {
                if k < i {
                    assert(value_pairs_view(r0)[k] == (value_view(r0[k].0), r0[k].1 as int));
                    assert(value_pairs_view(pairs@.take(i as int))[k] == (
                        value_view(pairs@.take(i as int)[k].0),
                        pairs@.take(i as int)[k].1 as int,
                    ));
                    assert(pairs@.take(i as int)[k] == pairs@[k]);
                    assert(value_pairs_view(pairs@.take(i + 1))[k] == (
                        value_view(pairs@.take(i + 1)[k].0),
                        pairs@.take(i + 1)[k].1 as int,
                    ));
                    assert(pairs@.take(i + 1)[k] == pairs@[k]);
                }
            }
            assert(value_pairs_view(r@) =~= value_pairs_view(pairs@.take(i + 1)));
        }
        i += 1;
    }
    assert(pairs@.take(n as int) =~= pairs@);
    r
}

} // verus!

verus! {

/// The characters of a list of character values, if that is what it is.
pub fn try_chars(items: &Vec<Value>) -> (r: Option<Vec<char>>)
    ensures
        match r {
            Some(cs) => all_chars(values_view(items@)) && cs@ == items_chars(values_view(items@)),
            None => !all_chars(values_view(items@)),
        },
{
    proof {
        lemma_values_view(items@);
    }
    let ghost iv: Seq<ValueView> = values_view(items@);
    let mut cs: Vec<char> = Vec::new();
    let n = items.len();
    let mut i: usize = 0;
    while i < n
        invariant
            n == items@.len(),
            iv == values_view(items@),
            iv.len() == n,
            forall|j: int| 0 <= j < n ==> iv[j] == value_view(items@[j]),
            i <= n,
            cs@.len() == i,
            forall|j: int| 0 <= j < i ==> as_char_v(#[trigger] iv[j]) == some_char(cs@[j]),
        decreases n - i,
    {
        match &items[i] {
            Value::Char(c) => {
                proof {
                    lemma_value_as_char(items@[i as int]);
                }
                cs.push(*c);
            },
            _ => {
                proof {
                    lemma_value_as_char(items@[i as int]);
                    lemma_not_all_chars(iv, i as int);
                }
                return None;
            },
        }
        i += 1;
    }
    proof {
        lemma_chars_complete(iv, cs@);
    }
    Some(cs)
}

/// The characters of a vector, as character values.
pub fn char_values_of(cs: &Vec<char>) -> (r: Vec<Value>)
    ensures
        values_view(r@) == chars_values(cs@),
{
    let n = cs.len();
    let mut v: Vec<Value> = Vec::new();
    let mut i: usize = 0;
    while i < n
        invariant
            n == cs@.len(),
            i <= n,
            v@.len() == i,
            forall|k: int| 0 <= k < i ==> #[trigger] v@[k] == char_value(cs@[k]),
        decreases n - i,
    {
        let ch = cs[i];
        let d = Value::Char(ch);
        proof {
            assert(d == char_value(cs@[i as int]));
        }
        v.push(d);
        i += 1;
    }
    proof {
        lemma_values_view(v@);
        lemma_chars_values(cs@);
        assert forall|k: int| 0 <= k < n implies values_view(v@)[k] == chars_values(cs@)[k] by {
            lemma_char_value(cs@[k]);
        }
        assert(values_view(v@) =~= chars_values(cs@));
    }
    v
}

impl Value {
    /// Collect copies of a character, as a method.
    pub fn probe_method(&self, c: char, n: usize) -> (r: Vec<char>)
        ensures
            r@.len() == n as int,
    {
        let mut v: Vec<char> = Vec::new();
        let mut i: usize = 0;
        while i < n
            invariant
                i <= n,
                v@.len() == i,
            decreases n - i,
        {
            v.push(c);
            i += 1;
        }
        v
    }
}

} // verus!
