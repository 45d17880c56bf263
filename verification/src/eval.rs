//! The evaluator: a stack machine that walks a cursor over a program,
//! executing primitives and recording every stack state observed at every
//! structural position into a trace keyed by cursor shape.

use vstd::prelude::*;
use crate::editor::{Cursor, CursorShape, CursorView, ShapeView, cursor_view, shape_view, shape_of, next_expr_of, moved_right, moved_up, moved_very_left};
use crate::syntax::{Expr, ExprView, expr_view};
use crate::value::{Value, ValueView, value_view, values_view, lemma_values_view, duplicate_values, as_num_v, as_bool_v, as_list_v, as_set_v, as_quote_v, as_string_v, as_char_v, str_view, chars_values, items_chars, value_pairs_view, char_item};

verus! {

/// One stack-machine instance: a stack of values, and an optional link to
/// the machine it was spawned from; the link only serves display, it has
/// no effect on execution.
#[derive(Debug)]
pub struct VM {
    pub parent: Option<Box<VM>>,
    pub stack: Vec<Value>,
}

/// The mathematical model of a machine.
#[verifier::ext_equal]
pub struct VMView {
    pub parent: Option<Box<VMView>>,
    pub stack: Seq<ValueView>,
}

/// The model of a machine.
pub open spec fn vm_view(vm: VM) -> VMView
    decreases vm,
{
    VMView {
        parent: match vm.parent {
            Some(p) => Some(Box::new(vm_view(*p))),
            None => None,
        },
        stack: values_view(vm.stack@),
    }
}

impl View for VM {
    type V = VMView;

    open spec fn view(&self) -> VMView {
        vm_view(*self)
    }
}

/// A machine with no parent and the given stack model.
pub open spec fn vm_of(stack: Seq<ValueView>) -> VMView {
    VMView { parent: None, stack }
}

/// The same machine with another stack.
pub open spec fn vm_with_stack(vm: VMView, stack: Seq<ValueView>) -> VMView {
    VMView { parent: vm.parent, stack }
}

/// A fresh child of a machine: an empty stack, linked back for display.
pub open spec fn vm_child_of(vm: VMView, stack: Seq<ValueView>) -> VMView {
    VMView { parent: Some(Box::new(vm)), stack }
}

/// The models of a sequence of machines, element by element.
pub open spec fn vms_view(s: Seq<VM>) -> Seq<VMView>
    decreases s,
{
    if s.len() == 0 {
        Seq::empty()
    } else {
        vms_view(s.subrange(0, s.len() - 1)).push(vm_view(s[s.len() - 1]))
    }
}

/// `vms_view` maps the view over the sequence.
pub proof fn lemma_vms_view(s: Seq<VM>)
    ensures
        vms_view(s).len() == s.len(),
        forall|i: int| 0 <= i < s.len() ==> vms_view(s)[i] == vm_view(s[i]),
    decreases s,
{
    if s.len() > 0 {
        lemma_vms_view(s.subrange(0, s.len() - 1));
    }
}

impl VM {
    /// A fresh machine: empty stack, no parent.
    pub fn new() -> (r: VM)
        ensures
            r@ == vm_of(Seq::<ValueView>::empty()),
    {
        let r = VM { parent: None, stack: Vec::new() };
        proof {
            assert(r@ =~= vm_of(Seq::<ValueView>::empty()));
        }
        r
    }

    /// A fresh machine whose parent link points at a copy of this one.
    pub fn new_child(&self) -> (r: VM)
        ensures
            r@ == vm_child_of(self@, Seq::<ValueView>::empty()),
    {
        let p = self.duplicate();
        let r = VM { parent: Some(Box::new(p)), stack: Vec::new() };
        proof {
            assert(r@ =~= vm_child_of(self@, Seq::<ValueView>::empty()));
        }
        r
    }

    /// A structural copy: the copy has the same model as the original.
    pub fn duplicate(&self) -> (r: VM)
        ensures
            r@ == self@,
        decreases *self,
    {
        let p = match &self.parent {
            Some(b) => Some(Box::new(b.duplicate())),
            None => None,
        };
        let r = VM { parent: p, stack: duplicate_values(&self.stack) };
        proof {
            assert(r@ =~= self@);
        }
        r
    }

    /// Borrow the stack; the top is the last element.
    pub fn stack(&self) -> (r: &Vec<Value>)
        ensures
            values_view(r@) == self@.stack,
    {
        &self.stack
    }

    /// Borrow the parent link.
    pub fn parent(&self) -> (r: &Option<Box<VM>>)
        ensures
            match r {
                Some(p) => self@.parent == Some(Box::new(vm_view(**p))),
                None => self@.parent is None,
            },
    {
        &self.parent
    }
}

/// The execution trace of one run: for every cursor shape observed, the
/// machine states seen there, in order.  Keys are distinct; entries appear
/// in the order their shape was first seen.
#[derive(Debug)]
pub struct Trace {
    keys: Vec<CursorShape>,
    snaps: Vec<Vec<VM>>,
}

/// The model of a trace: (shape, snapshots) pairs with distinct shapes.
pub open spec fn trace_entry(k: ShapeView, vs: Seq<VMView>) -> (ShapeView, Seq<VMView>) {
    (k, vs)
}

/// The model of a trace, entry by entry.
pub open spec fn trace_view_at(keys: Seq<CursorShape>, snaps: Seq<Vec<VM>>, i: int) -> (
    ShapeView,
    Seq<VMView>,
) {
    (shape_view(keys[i]), vms_view(snaps[i]@))
}

/// The model of the trace's entries.
pub open spec fn trace_entries(keys: Seq<CursorShape>, snaps: Seq<Vec<VM>>) -> Seq<
    (ShapeView, Seq<VMView>),
>
    decreases keys,
{
    if keys.len() == 0 || keys.len() != snaps.len() {
        Seq::empty()
    } else {
        trace_entries(keys.subrange(0, keys.len() - 1), snaps.subrange(0, snaps.len() - 1)).push(
            trace_view_at(keys, snaps, keys.len() - 1),
        )
    }
}

/// `trace_entries` maps the entry view over the pairs.
pub proof fn lemma_trace_entries(keys: Seq<CursorShape>, snaps: Seq<Vec<VM>>)
    requires
        keys.len() == snaps.len(),
    ensures
        trace_entries(keys, snaps).len() == keys.len(),
        forall|i: int| 0 <= i < keys.len()
            ==> trace_entries(keys, snaps)[i] == trace_view_at(keys, snaps, i),
    decreases keys,
{
    if keys.len() > 0 {
        lemma_trace_entries(keys.subrange(0, keys.len() - 1), snaps.subrange(0, snaps.len() - 1));
        assert forall|i: int| 0 <= i < keys.len() implies trace_entries(keys, snaps)[i]
            == trace_view_at(keys, snaps, i) by {
            if i < keys.len() - 1 {
                let k1 = keys.subrange(0, keys.len() - 1);
                let s1 = snaps.subrange(0, snaps.len() - 1);
                assert(trace_entries(keys, snaps)[i] == trace_entries(k1, s1)[i]);
                assert(trace_view_at(k1, s1, i) == trace_view_at(keys, snaps, i));
            }
        }
    }
}

impl View for Trace {
    type V = Seq<(ShapeView, Seq<VMView>)>;

    closed spec fn view(&self) -> Seq<(ShapeView, Seq<VMView>)> {
        trace_entries(self.keys@, self.snaps@)
    }
}

/// Record one snapshot under a shape: append to the shape's entry, or
/// open a new entry at the end for a shape not seen before.
pub open spec fn trace_add(t: Seq<(ShapeView, Seq<VMView>)>, k: ShapeView, vm: VMView) -> Seq<
    (ShapeView, Seq<VMView>),
>
    decreases t.len(),
{
    if t.len() == 0 {
        seq![trace_entry(k, seq![vm])]
    } else if t[0].0 == k {
        seq![trace_entry(k, t[0].1.push(vm))] + t.drop_first()
    } else {
        seq![t[0]] + trace_add(t.drop_first(), k, vm)
    }
}

/// Look a shape up in a trace.
pub open spec fn trace_get(t: Seq<(ShapeView, Seq<VMView>)>, k: ShapeView) -> Option<Seq<VMView>>
    decreases t.len(),
{
    if t.len() == 0 {
        None
    } else if t[0].0 == k {
        Some(t[0].1)
    } else {
        trace_get(t.drop_first(), k)
    }
}

impl Trace {
    /// The empty trace.
    pub fn new() -> (r: Trace)
        ensures
            r@ == Seq::<(ShapeView, Seq<VMView>)>::empty(),
    {
        let r = Trace { keys: Vec::new(), snaps: Vec::new() };
        proof {
            assert(r@ =~= Seq::<(ShapeView, Seq<VMView>)>::empty());
        }
        r
    }

    /// How many distinct shapes have been seen.
    pub fn len(&self) -> (r: usize)
        ensures
            r == self@.len(),
    {
        proof {
            if self.keys@.len() == self.snaps@.len() {
                lemma_trace_entries(self.keys@, self.snaps@);
            }
        }
        if self.keys.len() == self.snaps.len() {
            self.keys.len()
        } else {
            proof {
                lemma_trace_len(self.keys@, self.snaps@);
            }
            0
        }
    }

    /// The snapshots recorded under a shape, if any.
    pub fn get(&self, key: &CursorShape) -> (r: Option<&Vec<VM>>)
        ensures
            match r {
                Some(vs) => trace_get(self@, shape_view(*key)) == Some(vms_view(vs@)),
                None => trace_get(self@, shape_view(*key)) is None,
            },
    {
        let n = self.keys.len();
        if self.snaps.len() != n {
            proof {
                lemma_trace_len(self.keys@, self.snaps@);
            }
            return None;
        }
        proof {
            lemma_trace_entries(self.keys@, self.snaps@);
            assert(self@.skip(0) =~= self@);
        }
        let mut i: usize = 0;
        while i < n
            invariant
                n == self.keys@.len(),
                n == self.snaps@.len(),
                self@ == trace_entries(self.keys@, self.snaps@),
                self@.len() == n,
                forall|j: int| 0 <= j < n
                    ==> self@[j] == trace_view_at(self.keys@, self.snaps@, j),
                i <= n,
                trace_get(self@, shape_view(*key)) == trace_get(
                    self@.skip(i as int),
                    shape_view(*key),
                ),
            decreases n - i,
        {
            proof {
                assert(self@.skip(i as int)[0] == self@[i as int]);
                assert(self@.skip(i as int).drop_first() =~= self@.skip(i + 1));
            }
            if self.keys[i].same_shape(key) {
                proof {
                    assert(self@[i as int].0 == shape_view(self.keys@[i as int]));
                }
                return Some(&self.snaps[i]);
            }
            i += 1;
        }
        proof {
            assert(self@.skip(n as int).len() == 0);
        }
        None
    }

    /// Record one machine state under a shape.
    pub fn add_snapshot(&mut self, key: CursorShape, vm: &VM)
        ensures
            final(self)@ == trace_add(old(self)@, shape_view(key), vm_view(*vm)),
    {
        let n = self.keys.len();
        if self.snaps.len() != n {
            proof {
                lemma_trace_len(self.keys@, self.snaps@);
            }
            let copy = vm.duplicate();
            let ghost cv: VM = copy;
            let mut single: Vec<VM> = Vec::new();
            single.push(copy);
            proof {
                lemma_vms_view(single@);
                assert(vms_view(single@) =~= seq![vm_view(cv)]);
            }
            self.keys = Vec::new();
            self.snaps = Vec::new();
            self.keys.push(key);
            self.snaps.push(single);
            proof {
                lemma_trace_entries(self.keys@, self.snaps@);
                assert(final(self)@ =~= trace_add(old(self)@, shape_view(key), vm_view(*vm)));
            }
            return ;
        }
        proof {
            lemma_trace_entries(self.keys@, self.snaps@);
        }
        let ghost t0: Seq<(ShapeView, Seq<VMView>)> = self@;
        let ghost k0: Seq<CursorShape> = self.keys@;
        let ghost s0: Seq<Vec<VM>> = self.snaps@;
        proof {
            assert(t0.skip(0) =~= t0);
            assert(t0.take(0) =~= Seq::<(ShapeView, Seq<VMView>)>::empty());
        }
        let mut i: usize = 0;
        while i < n
            invariant
                n == k0.len(),
                n == s0.len(),
                self.keys@ == k0,
                self.snaps@ == s0,
                self@ == t0,
                t0 == old(self)@,
                t0 == trace_entries(k0, s0),
                t0.len() == n,
                forall|j: int| 0 <= j < n ==> t0[j] == trace_view_at(k0, s0, j),
                i <= n,
                trace_add(t0, shape_view(key), vm_view(*vm)) == t0.take(i as int) + trace_add(
                    t0.skip(i as int),
                    shape_view(key),
                    vm_view(*vm),
                ),
            decreases n - i,
        {
            proof {
                assert(t0.skip(i as int)[0] == t0[i as int]);
                assert(t0.skip(i as int).drop_first() =~= t0.skip(i + 1));
            }
            if self.keys[i].same_shape(&key) {
                let ghost old_bucket: Seq<VM> = s0[i as int]@;
                let copy = vm.duplicate();
                let ghost cv: VM = copy;
                let bucket = &mut self.snaps[i];
                bucket.push(copy);
                proof {
                    assert(self.snaps@ == s0.update(i as int, *bucket));
                    assert((*bucket)@ == old_bucket.push(cv));
                    lemma_vms_view(old_bucket);
                    lemma_vms_view((*bucket)@);
                    assert(vms_view((*bucket)@) =~= vms_view(old_bucket).push(vm_view(cv)));
                    lemma_trace_entries(self.keys@, self.snaps@);
                    let target = t0.take(i as int) + trace_add(
                        t0.skip(i as int),
                        shape_view(key),
                        vm_view(*vm),
                    );
                    assert(trace_add(t0.skip(i as int), shape_view(key), vm_view(*vm))
                        =~= seq![trace_entry(shape_view(key), t0[i as int].1.push(vm_view(*vm)))]
                        + t0.skip(i + 1));
                    assert forall|j: int| 0 <= j < n implies #[trigger] trace_entries(
                        self.keys@,
                        self.snaps@,
                    )[j] == target[j] by {
                        assert(trace_entries(self.keys@, self.snaps@)[j] == trace_view_at(
                            self.keys@,
                            self.snaps@,
                            j,
                        ));
                        if j != i {
                            assert(self.snaps@[j] == s0[j]);
                            assert(t0[j] == trace_view_at(k0, s0, j));
                            if j > i {
                                assert(t0.skip(i + 1)[j - i - 1] == t0[j]);
                            }
                        } else {
                            assert(t0[i as int] == trace_view_at(k0, s0, i as int));
                            assert(t0[i as int].0 == shape_view(key));
                        }
                    }
                    assert(trace_entries(self.keys@, self.snaps@) =~= target);
                }
                return ;
            }
            proof {
                assert(t0.take(i + 1) =~= t0.take(i as int) + seq![t0[i as int]]);
                assert(t0.take(i as int) + (seq![t0[i as int]] + trace_add(
                    t0.skip(i + 1),
                    shape_view(key),
                    vm_view(*vm),
                )) =~= t0.take(i + 1) + trace_add(t0.skip(i + 1), shape_view(key), vm_view(*vm)));
            }
            i += 1;
        }
        let copy = vm.duplicate();
        let ghost cv: VM = copy;
        let mut single: Vec<VM> = Vec::new();
        single.push(copy);
        proof {
            lemma_vms_view(single@);
            assert(vms_view(single@) =~= seq![vm_view(cv)]);
        }
        let ghost sv: Seq<VM> = single@;
        self.keys.push(key);
        self.snaps.push(single);
        proof {
            lemma_trace_entries(self.keys@, self.snaps@);
            assert(t0.skip(n as int).len() == 0);
            assert(trace_add(t0.skip(n as int), shape_view(key), vm_view(*vm)) =~= seq![
                trace_entry(shape_view(key), seq![vm_view(*vm)]),
            ]);
            let target = t0.take(n as int) + trace_add(
                t0.skip(n as int),
                shape_view(key),
                vm_view(*vm),
            );
            assert forall|j: int| 0 <= j < n + 1 implies #[trigger] trace_entries(
                self.keys@,
                self.snaps@,
            )[j] == target[j] by {
                assert(trace_entries(self.keys@, self.snaps@)[j] == trace_view_at(
                    self.keys@,
                    self.snaps@,
                    j,
                ));
                if j < n {
                    assert(self.keys@[j] == k0[j]);
                    assert(self.snaps@[j] == s0[j]);
                    assert(t0[j] == trace_view_at(k0, s0, j));
                    assert(t0.take(n as int)[j] == t0[j]);
                } else {
                    assert(self.keys@[j] == key);
                    assert(self.snaps@[j]@ == sv);
                }
            }
            assert(trace_entries(self.keys@, self.snaps@) =~= target);
            assert(t0.take(n as int) =~= t0);
        }
    }
}

/// A mismatched trace has the empty model.
proof fn lemma_trace_len(keys: Seq<CursorShape>, snaps: Seq<Vec<VM>>)
    requires
        keys.len() != snaps.len(),
    ensures
        trace_entries(keys, snaps).len() == 0,
{
}

/// The preloaded file table: the evaluator's one effect is reading a file,
/// and the caller decides what the files hold.
#[derive(Debug)]
pub struct FileStore {
    entries: Vec<(Vec<char>, Vec<char>)>,
}

/// The model of the file table, path by path.
pub open spec fn files_view(s: Seq<(Vec<char>, Vec<char>)>) -> Seq<(Seq<char>, Seq<char>)>
    decreases s,
{
    if s.len() == 0 {
        Seq::empty()
    } else {
        files_view(s.subrange(0, s.len() - 1)).push(
            (s[s.len() - 1].0@, s[s.len() - 1].1@),
        )
    }
}

/// `files_view` maps the views over the pairs.
pub proof fn lemma_files_view(s: Seq<(Vec<char>, Vec<char>)>)
    ensures
        files_view(s).len() == s.len(),
        forall|i: int| 0 <= i < s.len() ==> files_view(s)[i] == (s[i].0@, s[i].1@),
    decreases s,
{
    if s.len() > 0 {
        lemma_files_view(s.subrange(0, s.len() - 1));
    }
}

/// The contents filed under a path: the first matching entry.
pub open spec fn files_get(fs: Seq<(Seq<char>, Seq<char>)>, path: Seq<char>) -> Option<Seq<char>>
    decreases fs.len(),
{
    if fs.len() == 0 {
        None
    } else if fs[0].0 == path {
        Some(fs[0].1)
    } else {
        files_get(fs.drop_first(), path)
    }
}

impl View for FileStore {
    type V = Seq<(Seq<char>, Seq<char>)>;

    closed spec fn view(&self) -> Seq<(Seq<char>, Seq<char>)> {
        files_view(self.entries@)
    }
}

impl FileStore {
    /// An empty file table.
    pub fn new() -> (r: FileStore)
        ensures
            r@ == Seq::<(Seq<char>, Seq<char>)>::empty(),
    {
        let r = FileStore { entries: Vec::new() };
        proof {
            assert(r@ =~= Seq::<(Seq<char>, Seq<char>)>::empty());
        }
        r
    }

    /// File contents under a path, appended after the existing entries.
    pub fn add(&mut self, path: Vec<char>, contents: Vec<char>)
        ensures
            final(self)@ == old(self)@.push((path@, contents@)),
    {
        let ghost pv: Seq<char> = path@;
        let ghost cv: Seq<char> = contents@;
        let ghost e0: Seq<(Vec<char>, Vec<char>)> = self.entries@;
        self.entries.push((path, contents));
        proof {
            lemma_files_view(e0);
            lemma_files_view(self.entries@);
            assert forall|j: int| 0 <= j < e0.len() + 1 implies files_view(self.entries@)[j]
                == old(self)@.push((pv, cv))[j] by {
                if j < e0.len() {
                    assert(self.entries@[j] == e0[j]);
                    assert(files_view(e0)[j] == (e0[j].0@, e0[j].1@));
                }
            }
            assert(final(self)@ =~= old(self)@.push((pv, cv)));
        }
    }

    /// Look a path up.
    pub fn get(&self, path: &Vec<char>) -> (r: Option<&Vec<char>>)
        ensures
            match r {
                Some(cs) => files_get(self@, path@) == Some(cs@),
                None => files_get(self@, path@) is None,
            },
    {
        proof {
            lemma_files_view(self.entries@);
            assert(self@.skip(0) =~= self@);
        }
        let n = self.entries.len();
        let mut i: usize = 0;
        while i < n
            invariant
                n == self.entries@.len(),
                self@ == files_view(self.entries@),
                self@.len() == n,
                forall|j: int| 0 <= j < n
                    ==> self@[j] == (self.entries@[j].0@, self.entries@[j].1@),
                i <= n,
                files_get(self@, path@) == files_get(self@.skip(i as int), path@),
            decreases n - i,
        {
            proof {
                assert(self@.skip(i as int)[0] == self@[i as int]);
                assert(self@.skip(i as int).drop_first() =~= self@.skip(i + 1));
            }
            if crate::text::text_eq(&self.entries[i].0, path) {
                return Some(&self.entries[i].1);
            }
            i += 1;
        }
        proof {
            assert(self@.skip(n as int).len() == 0);
        }
        None
    }
}

} // verus!

verus! {

/// The value at depth `k` of a stack model; depth zero is the top.
pub open spec fn stk_at(s: Seq<ValueView>, k: int) -> ValueView
    recommends
        0 <= k < s.len(),
{
    s[s.len() - 1 - k]
}

/// Append one value to a stack.
pub fn push_value(stack: &mut Vec<Value>, v: Value)
    ensures
        values_view(final(stack)@) == values_view(old(stack)@).push(value_view(v)),
{
    let ghost s0: Seq<Value> = stack@;
    let ghost d: Value = v;
    stack.push(v);
    proof {
        lemma_values_view(s0);
        lemma_values_view(stack@);
        assert forall|k: int| 0 <= k < s0.len() + 1 implies values_view(stack@)[k] == values_view(
            s0,
        ).push(value_view(d))[k] by {
            if k < s0.len() {
                assert(stack@[k] == s0[k]);
            } else {
                assert(stack@[k] == d);
            }
        }
        assert(values_view(stack@) =~= values_view(s0).push(value_view(d)));
    }
}

/// Borrow the value at depth `k`; depth zero is the top.
pub fn peek(stack: &Vec<Value>, k: usize) -> (r: Option<&Value>)
    ensures
        match r {
            Some(v) => k < values_view(stack@).len() && value_view(*v) == stk_at(
                values_view(stack@),
                k as int,
            ),
            None => k >= values_view(stack@).len(),
        },
{
    proof {
        lemma_values_view(stack@);
    }
    let n = stack.len();
    if k < n {
        Some(&stack[n - 1 - k])
    } else {
        None
    }
}

/// Discard the top `k` values.
pub fn drop_top(stack: &mut Vec<Value>, k: usize)
    requires
        k <= values_view(old(stack)@).len(),
    ensures
        values_view(final(stack)@) == values_view(old(stack)@).take(
            values_view(old(stack)@).len() - k,
        ),
{
    proof {
        lemma_values_view(stack@);
    }
    let n = stack.len();
    let ghost s0: Seq<Value> = stack@;
    stack.truncate(n - k);
    proof {
        lemma_values_view(s0);
        lemma_values_view(stack@);
        assert(stack@ == s0.take(s0.len() - k));
        assert forall|j: int| 0 <= j < s0.len() - k implies values_view(stack@)[j] == values_view(
            s0,
        ).take(s0.len() - k)[j] by {
            assert(stack@[j] == s0[j]);
        }
        assert(values_view(stack@) =~= values_view(s0).take(values_view(s0).len() - k));
    }
}

} // verus!

verus! {

/// Relates a primitive's outcome to the stacks before and after: a rule
/// that fails leaves the stack untouched.
pub open spec fn pure_post(
    pre: Seq<ValueView>,
    post: Seq<ValueView>,
    r: Option<Seq<ValueView>>,
    ok: bool,
) -> bool {
    match r {
        Some(st) => ok && post == st,
        None => !ok && post == pre,
    }
}

/// Drop the top value.
pub open spec fn sp_del(s: Seq<ValueView>) -> Option<Seq<ValueView>> {
    if s.len() >= 1 {
        Some(s.drop_last())
    } else {
        None
    }
}

/// Duplicate the top value.
pub open spec fn sp_dup(s: Seq<ValueView>) -> Option<Seq<ValueView>> {
    if s.len() >= 1 {
        Some(s.push(stk_at(s, 0)))
    } else {
        None
    }
}

/// Swap the top two values.
pub open spec fn sp_flip(s: Seq<ValueView>) -> Option<Seq<ValueView>> {
    if s.len() >= 2 {
        Some(s.take(s.len() - 2).push(stk_at(s, 0)).push(stk_at(s, 1)))
    } else {
        None
    }
}

/// Copy the value at a given depth to the top.
pub open spec fn sp_copy(s: Seq<ValueView>) -> Option<Seq<ValueView>> {
    if s.len() >= 1 {
        match as_num_v(stk_at(s, 0)) {
            Some(n) => {
                let s1 = s.drop_last();
                if 0 <= n < s1.len() {
                    Some(s1.push(stk_at(s1, n)))
                } else {
                    None
                }
            },
            None => None,
        }
    } else {
        None
    }
}

/// Move the value at a given depth to the top.
pub open spec fn sp_move(s: Seq<ValueView>) -> Option<Seq<ValueView>> {
    if s.len() >= 1 {
        match as_num_v(stk_at(s, 0)) {
            Some(n) => {
                let s1 = s.drop_last();
                if 0 <= n < s1.len() {
                    let idx = s1.len() - 1 - n;
                    Some(s1.remove(idx).push(s1[idx]))
                } else {
                    None
                }
            },
            None => None,
        }
    } else {
        None
    }
}

/// Substitute the replacement where the value equals the test.
pub open spec fn sp_sb(s: Seq<ValueView>) -> Option<Seq<ValueView>> {
    if s.len() >= 3 {
        let newv = stk_at(s, 0);
        let test = stk_at(s, 1);
        let v = stk_at(s, 2);
        let s3 = s.take(s.len() - 3);
        if v == test {
            Some(s3.push(newv))
        } else {
            Some(s3.push(v))
        }
    } else {
        None
    }
}

/// A number pushed onto a stack.
pub open spec fn num_item(n: int) -> ValueView {
    ValueView::Num { n }
}

/// Whether an integer fits the machine range.
pub open spec fn fits_i64(n: int) -> bool {
    i64::MIN <= n <= i64::MAX
}

/// Increment the top number.
pub open spec fn sp_inc(s: Seq<ValueView>) -> Option<Seq<ValueView>> {
    if s.len() >= 1 {
        match as_num_v(stk_at(s, 0)) {
            Some(a) => {
                if fits_i64(a + 1) {
                    Some(s.drop_last().push(num_item(a + 1)))
                } else {
                    None
                }
            },
            None => None,
        }
    } else {
        None
    }
}

/// A binary number operation: the top is the right operand.
pub open spec fn two_nums(s: Seq<ValueView>) -> Option<(int, int)> {
    if s.len() >= 2 {
        match (as_num_v(stk_at(s, 1)), as_num_v(stk_at(s, 0))) {
            (Some(a), Some(b)) => Some((a, b)),
            _ => None,
        }
    } else {
        None
    }
}

/// Add the top two numbers.
pub open spec fn sp_add(s: Seq<ValueView>) -> Option<Seq<ValueView>> {
    match two_nums(s) {
        Some((a, b)) => {
            if fits_i64(a + b) {
                Some(s.take(s.len() - 2).push(num_item(a + b)))
            } else {
                None
            }
        },
        None => None,
    }
}

/// Multiply the top two numbers.
pub open spec fn sp_mul(s: Seq<ValueView>) -> Option<Seq<ValueView>> {
    match two_nums(s) {
        Some((a, b)) => {
            if fits_i64(a * b) {
                Some(s.take(s.len() - 2).push(num_item(a * b)))
            } else {
                None
            }
        },
        None => None,
    }
}

/// The quotient of truncating division, as machine division computes it.
pub open spec fn tdiv(x: int, d: int) -> int {
    if x == 0 {
        0
    } else if x > 0 && d > 0 {
        x / d
    } else if x < 0 && d < 0 {
        (x * -1) / (d * -1)
    } else if x < 0 {
        ((x * -1) / d) * -1
    } else {
        (x / (d * -1)) * -1
    }
}

/// Divide the top two numbers; division by zero fails the rule.
pub open spec fn sp_div(s: Seq<ValueView>) -> Option<Seq<ValueView>> {
    match two_nums(s) {
        Some((a, b)) => {
            if b != 0 && fits_i64(tdiv(a, b)) {
                Some(s.take(s.len() - 2).push(num_item(tdiv(a, b))))
            } else {
                None
            }
        },
        None => None,
    }
}

/// A boolean pushed onto a stack: one or zero.
pub open spec fn bool_item(b: bool) -> ValueView {
    ValueView::Num { n: if b { 1int } else { 0int } }
}

/// Structural equality of the top two values.
pub open spec fn sp_eqv(s: Seq<ValueView>) -> Option<Seq<ValueView>> {
    if s.len() >= 2 {
        Some(s.take(s.len() - 2).push(bool_item(stk_at(s, 1) == stk_at(s, 0))))
    } else {
        None
    }
}

/// Whether the lower number is at most the upper one.
pub open spec fn sp_le(s: Seq<ValueView>) -> Option<Seq<ValueView>> {
    match two_nums(s) {
        Some((a, b)) => Some(s.take(s.len() - 2).push(bool_item(a <= b))),
        None => None,
    }
}

/// Whether the lower number is at least the upper one.
pub open spec fn sp_ge(s: Seq<ValueView>) -> Option<Seq<ValueView>> {
    match two_nums(s) {
        Some((a, b)) => Some(s.take(s.len() - 2).push(bool_item(a >= b))),
        None => None,
    }
}

/// A binary boolean operation: the top is the right operand.
pub open spec fn two_bools(s: Seq<ValueView>) -> Option<(bool, bool)> {
    if s.len() >= 2 {
        match (as_bool_v(stk_at(s, 1)), as_bool_v(stk_at(s, 0))) {
            (Some(a), Some(b)) => Some((a, b)),
            _ => None,
        }
    } else {
        None
    }
}

/// Boolean conjunction of the top two values.
pub open spec fn sp_and(s: Seq<ValueView>) -> Option<Seq<ValueView>> {
    match two_bools(s) {
        Some((a, b)) => Some(s.take(s.len() - 2).push(bool_item(a && b))),
        None => None,
    }
}

/// Boolean disjunction of the top two values.
pub open spec fn sp_or(s: Seq<ValueView>) -> Option<Seq<ValueView>> {
    match two_bools(s) {
        Some((a, b)) => Some(s.take(s.len() - 2).push(bool_item(a || b))),
        None => None,
    }
}

/// The length of the top list.
pub open spec fn sp_len(s: Seq<ValueView>) -> Option<Seq<ValueView>> {
    if s.len() >= 1 {
        match as_list_v(stk_at(s, 0)) {
            Some(items) => {
                if items.len() <= i64::MAX {
                    Some(s.drop_last().push(num_item(items.len() as int)))
                } else {
                    None
                }
            },
            None => None,
        }
    } else {
        None
    }
}

/// A list pushed onto a stack.
pub open spec fn list_item(items: Seq<ValueView>) -> ValueView {
    ValueView::List { items }
}

/// Concatenate the two top lists; the top is the right part.
pub open spec fn sp_append(s: Seq<ValueView>) -> Option<Seq<ValueView>> {
    if s.len() >= 2 {
        match (as_list_v(stk_at(s, 1)), as_list_v(stk_at(s, 0))) {
            (Some(a), Some(b)) => Some(s.take(s.len() - 2).push(list_item(a + b))),
            _ => None,
        }
    } else {
        None
    }
}

/// Spill a list onto the stack, first element on top.
pub open spec fn sp_each(s: Seq<ValueView>) -> Option<Seq<ValueView>> {
    if s.len() >= 1 {
        match as_list_v(stk_at(s, 0)) {
            Some(items) => Some(s.drop_last() + rev_vals(items)),
            None => None,
        }
    } else {
        None
    }
}

/// The numbers of a range, as list items.
pub open spec fn range_items(lo: int, hi: int) -> Seq<ValueView>
    decreases hi - lo + 1,
{
    if lo > hi {
        Seq::empty()
    } else {
        range_items(lo, hi - 1).push(num_item(hi))
    }
}

/// `range_items` lists the numbers in order.
pub proof fn lemma_range_items(lo: int, hi: int)
    ensures
        range_items(lo, hi).len() == (if lo > hi {
            0int
        } else {
            hi - lo + 1
        }),
        forall|i: int| 0 <= i < range_items(lo, hi).len()
            ==> range_items(lo, hi)[i] == num_item(lo + i),
    decreases hi - lo + 1,
{
    if lo <= hi {
        lemma_range_items(lo, hi - 1);
    }
}

/// The numbers zero up to, excluding, the count on top of the stack.
pub open spec fn sp_iota(s: Seq<ValueView>) -> Option<Seq<ValueView>> {
    if s.len() >= 1 {
        match as_num_v(stk_at(s, 0)) {
            Some(n) => Some(s.drop_last().push(list_item(range_items(0, n - 1)))),
            None => None,
        }
    } else {
        None
    }
}

/// The inclusive number range between the two top numbers.
pub open spec fn sp_irange(s: Seq<ValueView>) -> Option<Seq<ValueView>> {
    match two_nums(s) {
        Some((lo, hi)) => Some(s.take(s.len() - 2).push(list_item(range_items(lo, hi)))),
        None => None,
    }
}

} // verus!

verus! {

/// Drop the top value.
fn prim_del(stack: &mut Vec<Value>) -> (ok: bool)
    ensures
        pure_post(
            values_view(old(stack)@),
            values_view(final(stack)@),
            sp_del(values_view(old(stack)@)),
            ok,
        ),
{
    let n = stack.len();
    proof {
        lemma_values_view(stack@);
    }
    if n == 0 {
        return false;
    }
    drop_top(stack, 1);
    proof {
        assert(values_view(final(stack)@) =~= values_view(old(stack)@).drop_last());
    }
    true
}

/// Duplicate the top value.
fn prim_dup(stack: &mut Vec<Value>) -> (ok: bool)
    ensures
        pure_post(
            values_view(old(stack)@),
            values_view(final(stack)@),
            sp_dup(values_view(old(stack)@)),
            ok,
        ),
{
    let copy = match peek(stack, 0) {
        Some(v) => v.duplicate(),
        None => {
            return false;
        },
    };
    push_value(stack, copy);
    true
}

/// Swap the top two values.
fn prim_flip(stack: &mut Vec<Value>) -> (ok: bool)
    ensures
        pure_post(
            values_view(old(stack)@),
            values_view(final(stack)@),
            sp_flip(values_view(old(stack)@)),
            ok,
        ),
{
    let a = match peek(stack, 0) {
        Some(v) => v.duplicate(),
        None => {
            return false;
        },
    };
    let b = match peek(stack, 1) {
        Some(v) => v.duplicate(),
        None => {
            return false;
        },
    };
    drop_top(stack, 2);
    push_value(stack, a);
    push_value(stack, b);
    true
}

/// Copy the value at a given depth to the top.
fn prim_copy(stack: &mut Vec<Value>) -> (ok: bool)
    ensures
        pure_post(
            values_view(old(stack)@),
            values_view(final(stack)@),
            sp_copy(values_view(old(stack)@)),
            ok,
        ),
{
    let n = match peek(stack, 0) {
        Some(v) => match v.as_i64() {
            Some(n) => n,
            None => {
                return false;
            },
        },
        None => {
            return false;
        },
    };
    proof {
        lemma_values_view(stack@);
    }
    let len = stack.len();
    if !(0 <= n && (n as u64) < ((len - 1) as u64)) {
        proof {
            let s = values_view(old(stack)@);
            if 0 <= n {
                assert(!(n < s.drop_last().len()));
            }
        }
        return false;
    }
    let k = (n as usize) + 1;
    let copy = match peek(stack, k) {
        Some(v) => v.duplicate(),
        None => {
            proof {
                assert(false);
            }
            return false;
        },
    };
    drop_top(stack, 1);
    push_value(stack, copy);
    proof {
        let s = values_view(old(stack)@);
        let s1 = s.drop_last();
        assert(s.take(s.len() - 1) =~= s1);
        assert(stk_at(s, k as int) == stk_at(s1, n as int));
    }
    true
}

/// Move the value at a given depth to the top.
fn prim_move(stack: &mut Vec<Value>) -> (ok: bool)
    ensures
        pure_post(
            values_view(old(stack)@),
            values_view(final(stack)@),
            sp_move(values_view(old(stack)@)),
            ok,
        ),
{
    let n = match peek(stack, 0) {
        Some(v) => match v.as_i64() {
            Some(n) => n,
            None => {
                return false;
            },
        },
        None => {
            return false;
        },
    };
    proof {
        lemma_values_view(stack@);
    }
    let len = stack.len();
    if !(0 <= n && (n as u64) < ((len - 1) as u64)) {
        proof {
            let s = values_view(old(stack)@);
            if 0 <= n {
                assert(!(n < s.drop_last().len()));
            }
        }
        return false;
    }
    let _ = stack.pop();
    proof {
        lemma_values_view(stack@);
        assert(values_view(stack@) =~= values_view(old(stack)@).drop_last());
    }
    let idx = stack.len() - 1 - (n as usize);
    let ghost s1v: Seq<Value> = stack@;
    let moved = stack.remove(idx);
    let ghost mv: Value = moved;
    proof {
        lemma_values_view(s1v);
        lemma_values_view(stack@);
        assert(stack@ == s1v.remove(idx as int));
        assert forall|j: int| 0 <= j < s1v.len() - 1 implies values_view(stack@)[j] == values_view(
            s1v,
        ).remove(idx as int)[j] by {
            if j < idx {
                assert(stack@[j] == s1v[j]);
            } else {
                assert(stack@[j] == s1v[j + 1]);
            }
        }
        assert(values_view(stack@) =~= values_view(s1v).remove(idx as int));
        assert(value_view(mv) == values_view(s1v)[idx as int]);
    }
    push_value(stack, moved);
    true
}

/// Substitute the replacement where the value equals the test.
fn prim_sb(stack: &mut Vec<Value>) -> (ok: bool)
    ensures
        pure_post(
            values_view(old(stack)@),
            values_view(final(stack)@),
            sp_sb(values_view(old(stack)@)),
            ok,
        ),
{
    if stack.len() < 3 {
        proof {
            lemma_values_view(stack@);
        }
        return false;
    }
    proof {
        lemma_values_view(stack@);
    }
    let newv = match peek(stack, 0) {
        Some(v) => v.duplicate(),
        None => {
            return false;
        },
    };
    let is_eq = match (peek(stack, 2), peek(stack, 1)) {
        (Some(v), Some(t)) => {
            match crate::valueorder::cmp_value_exec(v, t) {
                crate::order::Cmp::Eq => true,
                _ => false,
            }
        },
        _ => {
            return false;
        },
    };
    proof {
        crate::valueorder::lemma_cmp_value_eq(
            stk_at(values_view(old(stack)@), 2),
            stk_at(values_view(old(stack)@), 1),
        );
    }
    if is_eq {
        drop_top(stack, 3);
        push_value(stack, newv);
    } else {
        let v = match peek(stack, 2) {
            Some(v) => v.duplicate(),
            None => {
                return false;
            },
        };
        drop_top(stack, 3);
        push_value(stack, v);
    }
    true
}

/// Increment the top number.
fn prim_inc(stack: &mut Vec<Value>) -> (ok: bool)
    ensures
        pure_post(
            values_view(old(stack)@),
            values_view(final(stack)@),
            sp_inc(values_view(old(stack)@)),
            ok,
        ),
{
    let a = match peek(stack, 0) {
        Some(v) => match v.as_i64() {
            Some(n) => n,
            None => {
                return false;
            },
        },
        None => {
            return false;
        },
    };
    match a.checked_add(1) {
        Some(r) => {
            drop_top(stack, 1);
            push_value(stack, Value::new_i64(r));
            proof {
                let s = values_view(old(stack)@);
                assert(s.take(s.len() - 1) =~= s.drop_last());
            }
            true
        },
        None => false,
    }
}

/// Read the two number operands under a binary primitive.
fn get_two_nums(stack: &Vec<Value>) -> (r: Option<(i64, i64)>)
    ensures
        match r {
            Some((a, b)) => two_nums(values_view(stack@)) == Some((a as int, b as int)),
            None => two_nums(values_view(stack@)) is None,
        },
{
    proof {
        lemma_values_view(stack@);
    }
    match (peek(stack, 1), peek(stack, 0)) {
        (Some(va), Some(vb)) => {
            match (va.as_i64(), vb.as_i64()) {
                (Some(a), Some(b)) => Some((a, b)),
                _ => None,
            }
        },
        _ => None,
    }
}

/// Add the top two numbers.
fn prim_add(stack: &mut Vec<Value>) -> (ok: bool)
    ensures
        pure_post(
            values_view(old(stack)@),
            values_view(final(stack)@),
            sp_add(values_view(old(stack)@)),
            ok,
        ),
{
    let (a, b) = match get_two_nums(stack) {
        Some(p) => p,
        None => {
            return false;
        },
    };
    match a.checked_add(b) {
        Some(r) => {
            drop_top(stack, 2);
            push_value(stack, Value::new_i64(r));
            true
        },
        None => false,
    }
}

/// Multiply the top two numbers.
fn prim_mul(stack: &mut Vec<Value>) -> (ok: bool)
    ensures
        pure_post(
            values_view(old(stack)@),
            values_view(final(stack)@),
            sp_mul(values_view(old(stack)@)),
            ok,
        ),
{
    let (a, b) = match get_two_nums(stack) {
        Some(p) => p,
        None => {
            return false;
        },
    };
    match a.checked_mul(b) {
        Some(r) => {
            drop_top(stack, 2);
            push_value(stack, Value::new_i64(r));
            true
        },
        None => false,
    }
}

/// Divide the top two numbers.
fn prim_div(stack: &mut Vec<Value>) -> (ok: bool)
    ensures
        pure_post(
            values_view(old(stack)@),
            values_view(final(stack)@),
            sp_div(values_view(old(stack)@)),
            ok,
        ),
{
    let (a, b) = match get_two_nums(stack) {
        Some(p) => p,
        None => {
            return false;
        },
    };
    match a.checked_div(b) {
        Some(r) => {
            proof {
                assert(r as int == tdiv(a as int, b as int));
            }
            drop_top(stack, 2);
            push_value(stack, Value::new_i64(r));
            true
        },
        None => {
            proof {
                if b != 0 {
                    assert(!fits_i64(tdiv(a as int, b as int)));
                }
            }
            false
        },
    }
}

/// Structural equality of the top two values.
fn prim_eqv(stack: &mut Vec<Value>) -> (ok: bool)
    ensures
        pure_post(
            values_view(old(stack)@),
            values_view(final(stack)@),
            sp_eqv(values_view(old(stack)@)),
            ok,
        ),
{
    if stack.len() < 2 {
        proof {
            lemma_values_view(stack@);
        }
        return false;
    }
    proof {
        lemma_values_view(stack@);
    }
    let is_eq = match (peek(stack, 1), peek(stack, 0)) {
        (Some(a), Some(b)) => {
            match crate::valueorder::cmp_value_exec(a, b) {
                crate::order::Cmp::Eq => true,
                _ => false,
            }
        },
        _ => {
            return false;
        },
    };
    proof {
        crate::valueorder::lemma_cmp_value_eq(
            stk_at(values_view(old(stack)@), 1),
            stk_at(values_view(old(stack)@), 0),
        );
    }
    drop_top(stack, 2);
    push_value(stack, Value::new_bool(is_eq));
    true
}

/// Compare the top two numbers.
fn prim_le(stack: &mut Vec<Value>) -> (ok: bool)
    ensures
        pure_post(
            values_view(old(stack)@),
            values_view(final(stack)@),
            sp_le(values_view(old(stack)@)),
            ok,
        ),
{
    let (a, b) = match get_two_nums(stack) {
        Some(p) => p,
        None => {
            return false;
        },
    };
    drop_top(stack, 2);
    push_value(stack, Value::new_bool(a <= b));
    true
}

/// Compare the top two numbers.
fn prim_ge(stack: &mut Vec<Value>) -> (ok: bool)
    ensures
        pure_post(
            values_view(old(stack)@),
            values_view(final(stack)@),
            sp_ge(values_view(old(stack)@)),
            ok,
        ),
{
    let (a, b) = match get_two_nums(stack) {
        Some(p) => p,
        None => {
            return false;
        },
    };
    drop_top(stack, 2);
    push_value(stack, Value::new_bool(a >= b));
    true
}

/// Read the two boolean operands under a binary primitive.
fn get_two_bools(stack: &Vec<Value>) -> (r: Option<(bool, bool)>)
    ensures
        match r {
            Some((a, b)) => two_bools(values_view(stack@)) == Some((a, b)),
            None => two_bools(values_view(stack@)) is None,
        },
{
    proof {
        lemma_values_view(stack@);
    }
    match (peek(stack, 1), peek(stack, 0)) {
        (Some(va), Some(vb)) => {
            match (va.as_bool(), vb.as_bool()) {
                (Some(a), Some(b)) => Some((a, b)),
                _ => None,
            }
        },
        _ => None,
    }
}

/// Boolean conjunction.
fn prim_and(stack: &mut Vec<Value>) -> (ok: bool)
    ensures
        pure_post(
            values_view(old(stack)@),
            values_view(final(stack)@),
            sp_and(values_view(old(stack)@)),
            ok,
        ),
{
    let (a, b) = match get_two_bools(stack) {
        Some(p) => p,
        None => {
            return false;
        },
    };
    drop_top(stack, 2);
    push_value(stack, Value::new_bool(a && b));
    true
}

/// Boolean disjunction.
fn prim_or(stack: &mut Vec<Value>) -> (ok: bool)
    ensures
        pure_post(
            values_view(old(stack)@),
            values_view(final(stack)@),
            sp_or(values_view(old(stack)@)),
            ok,
        ),
{
    let (a, b) = match get_two_bools(stack) {
        Some(p) => p,
        None => {
            return false;
        },
    };
    drop_top(stack, 2);
    push_value(stack, Value::new_bool(a || b));
    true
}

} // verus!

verus! {

/// Push a number.
fn push_num(stack: &mut Vec<Value>, n: i64)
    ensures
        values_view(final(stack)@) == values_view(old(stack)@).push(num_item(n as int)),
{
    push_value(stack, Value::new_i64(n));
}

/// Push a boolean.
fn push_bool(stack: &mut Vec<Value>, b: bool)
    ensures
        values_view(final(stack)@) == values_view(old(stack)@).push(bool_item(b)),
{
    push_value(stack, Value::new_bool(b));
}

/// Push a list of values.
fn push_list(stack: &mut Vec<Value>, items: Vec<Value>)
    ensures
        values_view(final(stack)@) == values_view(old(stack)@).push(list_item(values_view(items@))),
{
    push_value(stack, Value::new_list(items));
}

/// Push a string value.
fn push_str(stack: &mut Vec<Value>, cs: Vec<char>)
    ensures
        values_view(final(stack)@) == values_view(old(stack)@).push(str_view(cs@)),
{
    push_value(stack, Value::new_str_chars(cs));
}

/// The length of the top list.
fn prim_len(stack: &mut Vec<Value>) -> (ok: bool)
    ensures
        pure_post(
            values_view(old(stack)@),
            values_view(final(stack)@),
            sp_len(values_view(old(stack)@)),
            ok,
        ),
{
    let n: usize = match peek(stack, 0) {
        Some(v) => match v.as_slice() {
            Some(items) => {
                proof {
                    lemma_values_view(items@);
                }
                items.len()
            },
            None => {
                return false;
            },
        },
        None => {
            return false;
        },
    };
    if (n as u64) > (i64::MAX as u64) {
        return false;
    }
    drop_top(stack, 1);
    push_num(stack, n as i64);
    proof {
        let s = values_view(old(stack)@);
        assert(s.take(s.len() - 1) =~= s.drop_last());
    }
    true
}

/// Concatenate the top two lists.
fn prim_append(stack: &mut Vec<Value>) -> (ok: bool)
    ensures
        pure_post(
            values_view(old(stack)@),
            values_view(final(stack)@),
            sp_append(values_view(old(stack)@)),
            ok,
        ),
{
    let mut a = match peek(stack, 1) {
        Some(v) => match v.as_list() {
            Some(items) => items,
            None => {
                return false;
            },
        },
        None => {
            return false;
        },
    };
    let mut b = match peek(stack, 0) {
        Some(v) => match v.as_list() {
            Some(items) => items,
            None => {
                return false;
            },
        },
        None => {
            return false;
        },
    };
    let ghost av: Seq<Value> = a@;
    let ghost bv: Seq<Value> = b@;
    a.append(&mut b);
    proof {
        assert(a@ =~= av + bv);
        lemma_values_view(av);
        lemma_values_view(bv);
        lemma_values_view(a@);
        assert forall|j: int| 0 <= j < av.len() + bv.len() implies values_view(a@)[j]
            == (values_view(av) + values_view(bv))[j] by {
            if j < av.len() {
                assert(a@[j] == av[j]);
            } else {
                assert(a@[j] == bv[j - av.len()]);
            }
        }
        assert(values_view(a@) =~= values_view(av) + values_view(bv));
    }
    drop_top(stack, 2);
    push_list(stack, a);
    true
}

/// The reversal of a sequence of items.
pub open spec fn rev_vals(items: Seq<ValueView>) -> Seq<ValueView>
    decreases items,
{
    if items.len() == 0 {
        Seq::empty()
    } else {
        rev_vals(items.subrange(1, items.len() as int)).push(items[0])
    }
}

/// `rev_vals` lists the items backwards.
pub proof fn lemma_rev_vals(items: Seq<ValueView>)
    ensures
        rev_vals(items).len() == items.len(),
        forall|i: int| 0 <= i < items.len() ==> rev_vals(items)[i] == items[items.len() - 1 - i],
    decreases items,
{
    if items.len() > 0 {
        lemma_rev_vals(items.subrange(1, items.len() as int));
        assert forall|i: int| 0 <= i < items.len() implies rev_vals(items)[i] == items[items.len()
            - 1 - i] by {
            if i < items.len() - 1 {
                assert(rev_vals(items)[i] == rev_vals(items.subrange(1, items.len() as int))[i]);
                assert(items.subrange(1, items.len() as int)[items.len() - 2 - i] == items[items.len() - 1 - i]);
            }
        }
    }
}

/// Spill a list onto the stack, first element on top.
fn prim_each(stack: &mut Vec<Value>) -> (ok: bool)
    ensures
        pure_post(
            values_view(old(stack)@),
            values_view(final(stack)@),
            sp_each(values_view(old(stack)@)),
            ok,
        ),
{
    let items = match peek(stack, 0) {
        Some(v) => match v.as_list() {
            Some(items) => items,
            None => {
                return false;
            },
        },
        None => {
            return false;
        },
    };
    let ghost iv: Seq<ValueView> = values_view(items@);
    drop_top(stack, 1);
    let ghost base: Seq<ValueView> = values_view(stack@);
    proof {
        lemma_values_view(items@);
        lemma_rev_vals(iv);
        assert(base + rev_vals(iv).take(0) =~= base);
    }
    let n = items.len();
    let mut k: usize = 0;
    while k < n
        invariant
            n == items@.len(),
            iv == values_view(items@),
            iv.len() == n,
            forall|j: int| 0 <= j < n ==> iv[j] == value_view(items@[j]),
            rev_vals(iv).len() == n,
            forall|j: int| 0 <= j < n ==> rev_vals(iv)[j] == iv[n - 1 - j],
            k <= n,
            values_view(stack@) == base + rev_vals(iv).take(k as int),
        decreases n - k,
    {
        let v = items[n - 1 - k].duplicate();
        push_value(stack, v);
        proof {
            assert((base + rev_vals(iv).take(k as int)).push(iv[n - 1 - k]) =~= base + rev_vals(
                iv,
            ).take(k + 1));
        }
        k += 1;
    }
    proof {
        assert(rev_vals(iv).take(n as int) =~= rev_vals(iv));
        let s = values_view(old(stack)@);
        assert(s.take(s.len() - 1) =~= s.drop_last());
    }
    true
}

/// Build the number range from `lo` to `hi`, inclusive.
fn build_range(lo: i64, hi: i64) -> (out: Vec<Value>)
    ensures
        values_view(out@) == range_items(lo as int, hi as int),
{
    let mut out: Vec<Value> = Vec::new();
    proof {
        lemma_range_items(lo as int, hi as int);
        lemma_values_view(out@);
    }
    if lo > hi {
        proof {
            assert(values_view(out@) =~= range_items(lo as int, hi as int));
        }
        return out;
    }
    let mut i: i64 = lo;
    while i < hi
        invariant
            lo <= i <= hi,
            range_items(lo as int, hi as int).len() == hi - lo + 1,
            forall|j: int| 0 <= j < hi - lo + 1
                ==> range_items(lo as int, hi as int)[j] == num_item(lo + j),
            values_view(out@).len() == i - lo,
            forall|j: int| 0 <= j < i - lo ==> values_view(out@)[j] == num_item(lo + j),
        decreases hi - i,
    {
        push_num(&mut out, i);
        i = i + 1;
    }
    push_num(&mut out, hi);
    proof {
        assert forall|j: int| 0 <= j < hi - lo + 1 implies values_view(out@)[j] == range_items(
            lo as int,
            hi as int,
        )[j] by {}
        assert(values_view(out@) =~= range_items(lo as int, hi as int));
    }
    out
}

/// The numbers zero up to, excluding, the count on top.
fn prim_iota(stack: &mut Vec<Value>) -> (ok: bool)
    ensures
        pure_post(
            values_view(old(stack)@),
            values_view(final(stack)@),
            sp_iota(values_view(old(stack)@)),
            ok,
        ),
{
    let n = match peek(stack, 0) {
        Some(v) => match v.as_i64() {
            Some(n) => n,
            None => {
                return false;
            },
        },
        None => {
            return false;
        },
    };
    let out = if n < 1 {
        proof {
            lemma_range_items(0, n - 1);
        }
        let empty_list: Vec<Value> = Vec::new();
        proof {
            lemma_values_view(empty_list@);
            assert(values_view(empty_list@) =~= range_items(0, n as int - 1));
        }
        empty_list
    } else {
        build_range(0, n - 1)
    };
    drop_top(stack, 1);
    push_list(stack, out);
    proof {
        let s = values_view(old(stack)@);
        assert(s.take(s.len() - 1) =~= s.drop_last());
    }
    true
}

/// The inclusive number range between the two top numbers.
fn prim_irange(stack: &mut Vec<Value>) -> (ok: bool)
    ensures
        pure_post(
            values_view(old(stack)@),
            values_view(final(stack)@),
            sp_irange(values_view(old(stack)@)),
            ok,
        ),
{
    let (lo, hi) = match get_two_nums(stack) {
        Some(p) => p,
        None => {
            return false;
        },
    };
    let out = if lo > hi {
        proof {
            lemma_range_items(lo as int, hi as int);
        }
        let empty_list: Vec<Value> = Vec::new();
        proof {
            lemma_values_view(empty_list@);
            assert(values_view(empty_list@) =~= range_items(lo as int, hi as int));
        }
        empty_list
    } else {
        build_range(lo, hi)
    };
    drop_top(stack, 2);
    push_list(stack, out);
    true
}

} // verus!

verus! {

/// String pieces as string values, piece by piece.
pub open spec fn strs_items(ps: Seq<Seq<char>>) -> Seq<ValueView>
    decreases ps,
{
    if ps.len() == 0 {
        Seq::empty()
    } else {
        strs_items(ps.subrange(0, ps.len() - 1)).push(str_view(ps[ps.len() - 1]))
    }
}

/// `strs_items` maps `str_view` over the pieces.
pub proof fn lemma_strs_items(ps: Seq<Seq<char>>)
    ensures
        strs_items(ps).len() == ps.len(),
        forall|i: int| 0 <= i < ps.len() ==> strs_items(ps)[i] == str_view(ps[i]),
    decreases ps,
{
    if ps.len() > 0 {
        lemma_strs_items(ps.subrange(0, ps.len() - 1));
    }
}

/// Turn split pieces into string values.
fn strs_to_values(vs: Vec<Vec<char>>) -> (out: Vec<Value>)
    ensures
        values_view(out@) == strs_items(crate::text::texts_view(vs@)),
{
    proof {
        crate::text::lemma_texts_view(vs@);
        lemma_strs_items(crate::text::texts_view(vs@));
    }
    let ghost pv: Seq<Seq<char>> = crate::text::texts_view(vs@);
    let mut out: Vec<Value> = Vec::new();
    let n = vs.len();
    let mut i: usize = 0;
    let mut vs = vs;
    while i < n
        invariant
            n == vs@.len(),
            pv == crate::text::texts_view(vs@),
            pv.len() == n,
            forall|j: int| 0 <= j < n ==> pv[j] == vs@[j]@,
            strs_items(pv).len() == n,
            forall|j: int| 0 <= j < n ==> strs_items(pv)[j] == str_view(pv[j]),
            i <= n,
            values_view(out@).len() == i,
            forall|j: int| 0 <= j < i ==> values_view(out@)[j] == str_view(pv[j]),
        decreases n - i,
    {
        let cs = vs[i].clone();
        assert(cs@ == vs@[i as int]@);
        push_str(&mut out, cs);
        i += 1;
    }
    proof {
        assert(values_view(out@) =~= strs_items(pv));
    }
    out
}

/// Replace every occurrence of the needle in the haystack.
pub open spec fn sp_replace(s: Seq<ValueView>) -> Option<Seq<ValueView>> {
    if s.len() >= 3 {
        match (as_string_v(stk_at(s, 2)), as_string_v(stk_at(s, 1)), as_string_v(stk_at(s, 0))) {
            (Some(h), Some(n), Some(r)) => Some(
                s.take(s.len() - 3).push(str_view(crate::text::replaced(h, n, r))),
            ),
            _ => None,
        }
    } else {
        None
    }
}

fn prim_replace(stack: &mut Vec<Value>) -> (ok: bool)
    ensures
        pure_post(
            values_view(old(stack)@),
            values_view(final(stack)@),
            sp_replace(values_view(old(stack)@)),
            ok,
        ),
{
    let h = match peek(stack, 2) {
        Some(v) => match v.as_string() {
            Some(cs) => cs,
            None => {
                return false;
            },
        },
        None => {
            return false;
        },
    };
    let nd = match peek(stack, 1) {
        Some(v) => match v.as_string() {
            Some(cs) => cs,
            None => {
                return false;
            },
        },
        None => {
            return false;
        },
    };
    let r = match peek(stack, 0) {
        Some(v) => match v.as_string() {
            Some(cs) => cs,
            None => {
                return false;
            },
        },
        None => {
            return false;
        },
    };
    let res = crate::text::replace_chars(&h, &nd, &r);
    drop_top(stack, 3);
    push_str(stack, res);
    true
}

/// Read a file from the preloaded table.
pub open spec fn sp_read(s: Seq<ValueView>, fs: Seq<(Seq<char>, Seq<char>)>) -> Option<
    Seq<ValueView>,
> {
    if s.len() >= 1 {
        match as_string_v(stk_at(s, 0)) {
            Some(path) => match files_get(fs, path) {
                Some(contents) => Some(s.drop_last().push(str_view(contents))),
                None => None,
            },
            None => None,
        }
    } else {
        None
    }
}

fn prim_read(stack: &mut Vec<Value>, files: &FileStore) -> (ok: bool)
    ensures
        pure_post(
            values_view(old(stack)@),
            values_view(final(stack)@),
            sp_read(values_view(old(stack)@), files@),
            ok,
        ),
{
    let path = match peek(stack, 0) {
        Some(v) => match v.as_string() {
            Some(cs) => cs,
            None => {
                return false;
            },
        },
        None => {
            return false;
        },
    };
    let contents = match files.get(&path) {
        Some(cs) => cs.clone(),
        None => {
            return false;
        },
    };
    drop_top(stack, 1);
    push_str(stack, contents);
    proof {
        let s = values_view(old(stack)@);
        assert(s.take(s.len() - 1) =~= s.drop_last());
    }
    true
}

/// Split the top string into lines.
pub open spec fn sp_lines(s: Seq<ValueView>) -> Option<Seq<ValueView>> {
    if s.len() >= 1 {
        match as_string_v(stk_at(s, 0)) {
            Some(cs) => Some(
                s.drop_last().push(list_item(strs_items(crate::text::split_lines(cs)))),
            ),
            None => None,
        }
    } else {
        None
    }
}

fn prim_lines(stack: &mut Vec<Value>) -> (ok: bool)
    ensures
        pure_post(
            values_view(old(stack)@),
            values_view(final(stack)@),
            sp_lines(values_view(old(stack)@)),
            ok,
        ),
{
    let cs = match peek(stack, 0) {
        Some(v) => match v.as_string() {
            Some(cs) => cs,
            None => {
                return false;
            },
        },
        None => {
            return false;
        },
    };
    let pieces = crate::text::lines_of(&cs);
    let items = strs_to_values(pieces);
    drop_top(stack, 1);
    push_list(stack, items);
    proof {
        let s = values_view(old(stack)@);
        assert(s.take(s.len() - 1) =~= s.drop_last());
    }
    true
}

/// Split the top string into words.
pub open spec fn sp_words(s: Seq<ValueView>) -> Option<Seq<ValueView>> {
    if s.len() >= 1 {
        match as_string_v(stk_at(s, 0)) {
            Some(cs) => Some(
                s.drop_last().push(list_item(strs_items(crate::text::split_words(cs)))),
            ),
            None => None,
        }
    } else {
        None
    }
}

fn prim_words(stack: &mut Vec<Value>) -> (ok: bool)
    ensures
        pure_post(
            values_view(old(stack)@),
            values_view(final(stack)@),
            sp_words(values_view(old(stack)@)),
            ok,
        ),
{
    let cs = match peek(stack, 0) {
        Some(v) => match v.as_string() {
            Some(cs) => cs,
            None => {
                return false;
            },
        },
        None => {
            return false;
        },
    };
    let pieces = crate::text::words_of(&cs);
    let items = strs_to_values(pieces);
    drop_top(stack, 1);
    push_list(stack, items);
    proof {
        let s = values_view(old(stack)@);
        assert(s.take(s.len() - 1) =~= s.drop_last());
    }
    true
}

/// Parse the top string as a number; an unreadable or overflowing text
/// leaves a poison marker as the result.
pub open spec fn sp_num(s: Seq<ValueView>) -> Option<Seq<ValueView>> {
    if s.len() >= 1 {
        match as_string_v(stk_at(s, 0)) {
            Some(cs) => {
                match crate::text::parsed_int(cs) {
                    Some(val) => {
                        if fits_i64(val) {
                            Some(s.drop_last().push(num_item(val)))
                        } else {
                            Some(s.drop_last().push(ValueView::Poison))
                        }
                    },
                    None => Some(s.drop_last().push(ValueView::Poison)),
                }
            },
            None => None,
        }
    } else {
        None
    }
}

fn prim_num(stack: &mut Vec<Value>) -> (ok: bool)
    ensures
        pure_post(
            values_view(old(stack)@),
            values_view(final(stack)@),
            sp_num(values_view(old(stack)@)),
            ok,
        ),
{
    let cs = match peek(stack, 0) {
        Some(v) => match v.as_string() {
            Some(cs) => cs,
            None => {
                return false;
            },
        },
        None => {
            return false;
        },
    };
    let parsed = crate::text::parse_i64(&cs);
    drop_top(stack, 1);
    match parsed {
        Some(n) => {
            push_num(stack, n);
        },
        None => {
            push_value(stack, Value::new_poison());
        },
    }
    proof {
        let s = values_view(old(stack)@);
        assert(s.take(s.len() - 1) =~= s.drop_last());
    }
    true
}

/// Copy a range of a list.
fn copy_range(items: &Vec<Value>, from: usize, to: usize) -> (out: Vec<Value>)
    requires
        from <= to,
        to <= items@.len(),
    ensures
        values_view(out@) == values_view(items@).subrange(from as int, to as int),
{
    proof {
        lemma_values_view(items@);
    }
    let mut out: Vec<Value> = Vec::new();
    let mut i: usize = from;
    while i < to
        invariant
            from <= i <= to,
            to <= items@.len(),
            values_view(items@).len() == items@.len(),
            forall|j: int| 0 <= j < items@.len()
                ==> values_view(items@)[j] == value_view(items@[j]),
            values_view(out@).len() == i - from,
            forall|j: int| 0 <= j < i - from
                ==> values_view(out@)[j] == values_view(items@)[from + j],
        decreases to - i,
    {
        let v = items[i].duplicate();
        push_value(&mut out, v);
        i += 1;
    }
    proof {
        assert(values_view(out@) =~= values_view(items@).subrange(from as int, to as int));
    }
    out
}

} // verus!

verus! {

/// Split the top list at an index; a negative index counts from the end.
pub open spec fn sp_splitat(s: Seq<ValueView>) -> Option<Seq<ValueView>> {
    if s.len() >= 2 {
        match (as_num_v(stk_at(s, 0)), as_list_v(stk_at(s, 1))) {
            (Some(n), Some(items)) => {
                let j = if n < 0 {
                    items.len() + n
                } else {
                    n
                };
                if 0 <= j <= items.len() {
                    Some(
                        s.take(s.len() - 2).push(
                            list_item(items.subrange(j, items.len() as int)),
                        ).push(list_item(items.subrange(0, j))),
                    )
                } else {
                    None
                }
            },
            _ => None,
        }
    } else {
        None
    }
}

/// The magnitude of a negative number, without overflow.
fn neg_magnitude(n: i64) -> (r: u64)
    requires
        n < 0,
    ensures
        r as int == -(n as int),
{
    ((-(n + 1)) as u64) + 1
}

fn prim_splitat(stack: &mut Vec<Value>) -> (ok: bool)
    ensures
        pure_post(
            values_view(old(stack)@),
            values_view(final(stack)@),
            sp_splitat(values_view(old(stack)@)),
            ok,
        ),
{
    let n = match peek(stack, 0) {
        Some(v) => match v.as_i64() {
            Some(n) => n,
            None => {
                return false;
            },
        },
        None => {
            return false;
        },
    };
    let items = match peek(stack, 1) {
        Some(v) => match v.as_list() {
            Some(items) => items,
            None => {
                return false;
            },
        },
        None => {
            return false;
        },
    };
    proof {
        lemma_values_view(items@);
    }
    let len = items.len();
    let j: usize = if n < 0 {
        let m = neg_magnitude(n);
        if m <= (len as u64) {
            len - (m as usize)
        } else {
            return false;
        }
    } else {
        if (n as u64) <= (len as u64) {
            n as usize
        } else {
            return false;
        }
    };
    let tail = copy_range(&items, j, len);
    let head = copy_range(&items, 0, j);
    drop_top(stack, 2);
    push_list(stack, tail);
    push_list(stack, head);
    true
}

/// Keep a bounded front part of the top list; a negative bound keeps all
/// but that many from the end, floored at zero.
pub open spec fn sp_take(s: Seq<ValueView>) -> Option<Seq<ValueView>> {
    if s.len() >= 2 {
        match (as_num_v(stk_at(s, 0)), as_list_v(stk_at(s, 1))) {
            (Some(n), Some(items)) => {
                let k = if n < 0 {
                    if items.len() + n >= 0 {
                        items.len() + n
                    } else {
                        0
                    }
                } else {
                    n
                };
                let k2 = if k <= items.len() {
                    k
                } else {
                    items.len() as int
                };
                Some(s.take(s.len() - 2).push(list_item(items.subrange(0, k2))))
            },
            _ => None,
        }
    } else {
        None
    }
}

fn prim_take(stack: &mut Vec<Value>) -> (ok: bool)
    ensures
        pure_post(
            values_view(old(stack)@),
            values_view(final(stack)@),
            sp_take(values_view(old(stack)@)),
            ok,
        ),
{
    let n = match peek(stack, 0) {
        Some(v) => match v.as_i64() {
            Some(n) => n,
            None => {
                return false;
            },
        },
        None => {
            return false;
        },
    };
    let items = match peek(stack, 1) {
        Some(v) => match v.as_list() {
            Some(items) => items,
            None => {
                return false;
            },
        },
        None => {
            return false;
        },
    };
    proof {
        lemma_values_view(items@);
    }
    let len = items.len();
    let k2: usize = if n < 0 {
        let m = neg_magnitude(n);
        if m <= (len as u64) {
            len - (m as usize)
        } else {
            0
        }
    } else {
        if (n as u64) <= (len as u64) {
            n as usize
        } else {
            len
        }
    };
    let front = copy_range(&items, 0, k2);
    drop_top(stack, 2);
    push_list(stack, front);
    true
}

/// A pair of an index and a value, as a two-element list.
pub open spec fn pair_item(j: int, v: ValueView) -> ValueView {
    list_item(seq![num_item(j), v])
}

/// Each element paired with its index.
pub open spec fn idx_items(items: Seq<ValueView>) -> Seq<ValueView>
    decreases items,
{
    if items.len() == 0 {
        Seq::empty()
    } else {
        idx_items(items.subrange(0, items.len() - 1)).push(
            pair_item(items.len() - 1, items[items.len() - 1]),
        )
    }
}

/// `idx_items` pairs positions with elements.
pub proof fn lemma_idx_items(items: Seq<ValueView>)
    ensures
        idx_items(items).len() == items.len(),
        forall|i: int| 0 <= i < items.len() ==> idx_items(items)[i] == pair_item(i, items[i]),
    decreases items,
{
    if items.len() > 0 {
        lemma_idx_items(items.subrange(0, items.len() - 1));
    }
}

/// Pair each element of the top list with its index.
pub open spec fn sp_indexed(s: Seq<ValueView>) -> Option<Seq<ValueView>> {
    if s.len() >= 1 {
        match as_list_v(stk_at(s, 0)) {
            Some(items) => {
                if items.len() <= i64::MAX {
                    Some(s.drop_last().push(list_item(idx_items(items))))
                } else {
                    None
                }
            },
            None => None,
        }
    } else {
        None
    }
}

fn prim_indexed(stack: &mut Vec<Value>) -> (ok: bool)
    ensures
        pure_post(
            values_view(old(stack)@),
            values_view(final(stack)@),
            sp_indexed(values_view(old(stack)@)),
            ok,
        ),
{
    let items = match peek(stack, 0) {
        Some(v) => match v.as_list() {
            Some(items) => items,
            None => {
                return false;
            },
        },
        None => {
            return false;
        },
    };
    proof {
        lemma_values_view(items@);
    }
    let n = items.len();
    if (n as u64) > (i64::MAX as u64) {
        return false;
    }
    let ghost iv: Seq<ValueView> = values_view(items@);
    proof {
        lemma_idx_items(iv);
    }
    let mut out: Vec<Value> = Vec::new();
    let mut i: usize = 0;
    while i < n
        invariant
            n == items@.len(),
            n <= i64::MAX,
            iv == values_view(items@),
            iv.len() == n,
            forall|j: int| 0 <= j < n ==> iv[j] == value_view(items@[j]),
            idx_items(iv).len() == n,
            forall|j: int| 0 <= j < n ==> idx_items(iv)[j] == pair_item(j, iv[j]),
            i <= n,
            values_view(out@).len() == i,
            forall|j: int| 0 <= j < i ==> values_view(out@)[j] == pair_item(j, iv[j]),
        decreases n - i,
    {
        let mut pair: Vec<Value> = Vec::new();
        push_num(&mut pair, i as i64);
        let v = items[i].duplicate();
        push_value(&mut pair, v);
        proof {
            assert(values_view(pair@) =~= seq![num_item(i as int), iv[i as int]]);
        }
        push_list(&mut out, pair);
        i += 1;
    }
    drop_top(stack, 1);
    proof {
        assert(values_view(out@) =~= idx_items(iv));
        let s = values_view(old(stack)@);
        assert(s.take(s.len() - 1) =~= s.drop_last());
    }
    push_list(stack, out);
    true
}

/// The list cut into chunks of a given size; the last chunk may be short.
pub open spec fn chunk_items(items: Seq<ValueView>, n: int) -> Seq<ValueView>
    recommends
        n >= 1,
    decreases items.len(),
{
    if items.len() == 0 || n < 1 {
        Seq::empty()
    } else if items.len() <= n {
        seq![list_item(items)]
    } else {
        seq![list_item(items.subrange(0, n))] + chunk_items(items.subrange(n, items.len() as int), n)
    }
}

/// Cut the top list into chunks of the given size.
pub open spec fn sp_chunks(s: Seq<ValueView>) -> Option<Seq<ValueView>> {
    if s.len() >= 2 {
        match (as_num_v(stk_at(s, 0)), as_list_v(stk_at(s, 1))) {
            (Some(n), Some(items)) => {
                if n >= 1 {
                    Some(s.take(s.len() - 2).push(list_item(chunk_items(items, n))))
                } else {
                    None
                }
            },
            _ => None,
        }
    } else {
        None
    }
}

fn prim_chunks(stack: &mut Vec<Value>) -> (ok: bool)
    ensures
        pure_post(
            values_view(old(stack)@),
            values_view(final(stack)@),
            sp_chunks(values_view(old(stack)@)),
            ok,
        ),
{
    let n = match peek(stack, 0) {
        Some(v) => match v.as_i64() {
            Some(n) => n,
            None => {
                return false;
            },
        },
        None => {
            return false;
        },
    };
    let items = match peek(stack, 1) {
        Some(v) => match v.as_list() {
            Some(items) => items,
            None => {
                return false;
            },
        },
        None => {
            return false;
        },
    };
    if n < 1 {
        return false;
    }
    proof {
        lemma_values_view(items@);
    }
    let ghost iv: Seq<ValueView> = values_view(items@);
    let len = items.len();
    let mut out: Vec<Value> = Vec::new();
    let mut i: usize = 0;
    proof {
        assert(iv.subrange(0, iv.len() as int) =~= iv);
    }
    while i < len
        invariant
            len == items@.len(),
            n >= 1,
            iv == values_view(items@),
            iv.len() == len,
            i <= len,
            i < len ==> chunk_items(iv, n as int) == values_view(out@) + chunk_items(
                iv.subrange(i as int, iv.len() as int),
                n as int,
            ),
            i == len ==> chunk_items(iv, n as int) == values_view(out@),
        decreases len - i,
    {
        let upto: usize = if (n as u64) <= ((len - i) as u64) {
            i + (n as usize)
        } else {
            len
        };
        let chunk = copy_range(&items, i, upto);
        let ghost rest: Seq<ValueView> = iv.subrange(i as int, iv.len() as int);
        push_list(&mut out, chunk);
        proof {
            if upto < len {
                assert(rest.subrange(0, n as int) =~= iv.subrange(i as int, upto as int));
                assert(rest.subrange(n as int, rest.len() as int) =~= iv.subrange(
                    upto as int,
                    iv.len() as int,
                ));
            } else {
                assert(rest =~= iv.subrange(i as int, upto as int));
            }
        }
        i = upto;
    }
    proof {
        if len == 0 {
            assert(chunk_items(iv, n as int) =~= values_view(out@));
        }
    }
    drop_top(stack, 2);
    push_list(stack, out);
    true
}

/// The sliding windows of the top list: one window of the given size at
/// every start strictly before `len - size`.
pub open spec fn win_items(items: Seq<ValueView>, size: int, k: int) -> Seq<ValueView>
    recommends
        0 <= k <= items.len() - size,
    decreases k,
{
    if k <= 0 {
        Seq::empty()
    } else {
        win_items(items, size, k - 1).push(list_item(items.subrange(k - 1, k - 1 + size)))
    }
}

/// `win_items` lists the windows in order.
pub proof fn lemma_win_items(items: Seq<ValueView>, size: int, k: int)
    ensures
        win_items(items, size, k).len() == (if k <= 0 {
            0int
        } else {
            k
        }),
        forall|i: int| 0 <= i < win_items(items, size, k).len()
            ==> win_items(items, size, k)[i] == list_item(items.subrange(i, i + size)),
    decreases k,
{
    if k > 0 {
        lemma_win_items(items, size, k - 1);
    }
}

/// Slide a window of the given size over the top list.
pub open spec fn sp_frames(s: Seq<ValueView>) -> Option<Seq<ValueView>> {
    if s.len() >= 2 {
        match (as_num_v(stk_at(s, 0)), as_list_v(stk_at(s, 1))) {
            (Some(n), Some(items)) => {
                if 0 <= n <= items.len() {
                    Some(
                        s.take(s.len() - 2).push(
                            list_item(win_items(items, n, items.len() - n)),
                        ),
                    )
                } else {
                    Some(s.take(s.len() - 2).push(list_item(Seq::empty())))
                }
            },
            _ => None,
        }
    } else {
        None
    }
}

fn prim_frames(stack: &mut Vec<Value>) -> (ok: bool)
    ensures
        pure_post(
            values_view(old(stack)@),
            values_view(final(stack)@),
            sp_frames(values_view(old(stack)@)),
            ok,
        ),
{
    let n = match peek(stack, 0) {
        Some(v) => match v.as_i64() {
            Some(n) => n,
            None => {
                return false;
            },
        },
        None => {
            return false;
        },
    };
    let items = match peek(stack, 1) {
        Some(v) => match v.as_list() {
            Some(items) => items,
            None => {
                return false;
            },
        },
        None => {
            return false;
        },
    };
    proof {
        lemma_values_view(items@);
    }
    let len = items.len();
    if !(0 <= n && (n as u64) <= (len as u64)) {
        let empty_items: Vec<Value> = Vec::new();
        proof {
            lemma_values_view(empty_items@);
            assert(values_view(empty_items@) =~= Seq::<ValueView>::empty());
        }
        drop_top(stack, 2);
        push_list(stack, empty_items);
        return true;
    }
    let size = n as usize;
    let count = len - size;
    let ghost iv: Seq<ValueView> = values_view(items@);
    proof {
        lemma_win_items(iv, n as int, count as int);
    }
    let mut out: Vec<Value> = Vec::new();
    let mut i: usize = 0;
    while i < count
        invariant
            len == items@.len(),
            iv == values_view(items@),
            iv.len() == len,
            size + count == len,
            n as int == size,
            win_items(iv, n as int, count as int).len() == count,
            forall|j: int| 0 <= j < count
                ==> win_items(iv, n as int, count as int)[j] == list_item(
                    iv.subrange(j, j + size),
                ),
            i <= count,
            values_view(out@).len() == i,
            forall|j: int| 0 <= j < i
                ==> values_view(out@)[j] == list_item(iv.subrange(j, j + size)),
        decreases count - i,
    {
        let w = copy_range(&items, i, i + size);
        push_list(&mut out, w);
        i += 1;
    }
    drop_top(stack, 2);
    proof {
        assert(values_view(out@) =~= win_items(iv, n as int, count as int));
    }
    push_list(stack, out);
    true
}

} // verus!

verus! {

/// A multiset pushed onto a stack.
pub open spec fn mset_item(pairs: Seq<(ValueView, int)>) -> ValueView {
    ValueView::Mset { pairs }
}

/// Collect the top list into a multiset.
pub open spec fn sp_set(s: Seq<ValueView>) -> Option<Seq<ValueView>> {
    if s.len() >= 1 {
        match as_list_v(stk_at(s, 0)) {
            Some(items) => Some(
                s.drop_last().push(mset_item(crate::polyset::ps_from_seq::<Value>(items))),
            ),
            None => None,
        }
    } else {
        None
    }
}

fn prim_set(stack: &mut Vec<Value>) -> (ok: bool)
    ensures
        pure_post(
            values_view(old(stack)@),
            values_view(final(stack)@),
            sp_set(values_view(old(stack)@)),
            ok,
        ),
{
    let items = match peek(stack, 0) {
        Some(v) => match v.as_list() {
            Some(items) => items,
            None => {
                return false;
            },
        },
        None => {
            return false;
        },
    };
    let ghost cv: Seq<Value> = items@;
    let ps = crate::polyset::Polyset::from_vec(items);
    proof {
        crate::value::lemma_polyset_vals_agree(cv);
    }
    drop_top(stack, 1);
    push_value(stack, Value::new_set(ps));
    proof {
        let s = values_view(old(stack)@);
        assert(s.take(s.len() - 1) =~= s.drop_last());
    }
    true
}

/// The distinct elements of a pair sequence, in order.
pub open spec fn keys_of_pairs(pairs: Seq<(ValueView, int)>) -> Seq<ValueView>
    decreases pairs,
{
    if pairs.len() == 0 {
        Seq::empty()
    } else {
        keys_of_pairs(pairs.subrange(0, pairs.len() - 1)).push(pairs[pairs.len() - 1].0)
    }
}

/// `keys_of_pairs` lists the first components in order.
pub proof fn lemma_keys_of_pairs(pairs: Seq<(ValueView, int)>)
    ensures
        keys_of_pairs(pairs).len() == pairs.len(),
        forall|i: int| 0 <= i < pairs.len() ==> keys_of_pairs(pairs)[i] == pairs[i].0,
    decreases pairs,
{
    if pairs.len() > 0 {
        lemma_keys_of_pairs(pairs.subrange(0, pairs.len() - 1));
    }
}

/// The distinct elements of the top multiset (or collected list).
pub open spec fn sp_nub(s: Seq<ValueView>) -> Option<Seq<ValueView>> {
    if s.len() >= 1 {
        match as_set_v(stk_at(s, 0)) {
            Some(pairs) => Some(s.drop_last().push(list_item(keys_of_pairs(pairs)))),
            None => None,
        }
    } else {
        None
    }
}

fn prim_nub(stack: &mut Vec<Value>) -> (ok: bool)
    ensures
        pure_post(
            values_view(old(stack)@),
            values_view(final(stack)@),
            sp_nub(values_view(old(stack)@)),
            ok,
        ),
{
    let ps = match peek(stack, 0) {
        Some(v) => match v.as_set() {
            Some(ps) => ps,
            None => {
                return false;
            },
        },
        None => {
            return false;
        },
    };
    let ghost pv: Seq<(ValueView, int)> = ps@;
    proof {
        lemma_keys_of_pairs(pv);
    }
    let ks = ps.keys();
    let n = ks.len();
    let mut out: Vec<Value> = Vec::new();
    let mut i: usize = 0;
    while i < n
        invariant
            n == ks@.len(),
            pv.len() == n,
            keys_of_pairs(pv).len() == n,
            forall|j: int| 0 <= j < n ==> keys_of_pairs(pv)[j] == pv[j].0,
            forall|j: int| 0 <= j < n ==> ks@[j]@ == pv[j].0,
            i <= n,
            values_view(out@).len() == i,
            forall|j: int| 0 <= j < i ==> values_view(out@)[j] == pv[j].0,
        decreases n - i,
    {
        let v = ks[i].duplicate();
        push_value(&mut out, v);
        i += 1;
    }
    drop_top(stack, 1);
    proof {
        assert(values_view(out@) =~= keys_of_pairs(pv));
        let s = values_view(old(stack)@);
        assert(s.take(s.len() - 1) =~= s.drop_last());
    }
    push_list(stack, out);
    true
}

/// The multiset sum of the two top sets.
pub open spec fn sp_union_prim(s: Seq<ValueView>) -> Option<Seq<ValueView>> {
    if s.len() >= 2 {
        match (as_set_v(stk_at(s, 0)), as_set_v(stk_at(s, 1))) {
            (Some(a), Some(b)) => Some(
                s.take(s.len() - 2).push(mset_item(crate::polyset::ps_union::<Value>(a, b))),
            ),
            _ => None,
        }
    } else {
        None
    }
}

fn prim_union(stack: &mut Vec<Value>) -> (ok: bool)
    ensures
        pure_post(
            values_view(old(stack)@),
            values_view(final(stack)@),
            sp_union_prim(values_view(old(stack)@)),
            ok,
        ),
{
    let a = match peek(stack, 0) {
        Some(v) => match v.as_set() {
            Some(ps) => ps,
            None => {
                return false;
            },
        },
        None => {
            return false;
        },
    };
    let b = match peek(stack, 1) {
        Some(v) => match v.as_set() {
            Some(ps) => ps,
            None => {
                return false;
            },
        },
        None => {
            return false;
        },
    };
    let u = a.union(b);
    drop_top(stack, 2);
    push_value(stack, Value::new_set(u));
    true
}

/// The multiset join of the two top sets.
pub open spec fn sp_join_prim(s: Seq<ValueView>) -> Option<Seq<ValueView>> {
    if s.len() >= 2 {
        match (as_set_v(stk_at(s, 0)), as_set_v(stk_at(s, 1))) {
            (Some(a), Some(b)) => Some(
                s.take(s.len() - 2).push(mset_item(crate::polyset::ps_join::<Value>(a, b))),
            ),
            _ => None,
        }
    } else {
        None
    }
}

fn prim_join(stack: &mut Vec<Value>) -> (ok: bool)
    ensures
        pure_post(
            values_view(old(stack)@),
            values_view(final(stack)@),
            sp_join_prim(values_view(old(stack)@)),
            ok,
        ),
{
    let a = match peek(stack, 0) {
        Some(v) => match v.as_set() {
            Some(ps) => ps,
            None => {
                return false;
            },
        },
        None => {
            return false;
        },
    };
    let b = match peek(stack, 1) {
        Some(v) => match v.as_set() {
            Some(ps) => ps,
            None => {
                return false;
            },
        },
        None => {
            return false;
        },
    };
    let u = a.join(b);
    drop_top(stack, 2);
    push_value(stack, Value::new_set(u));
    true
}

/// The running sum of a number list, failing on a non-number or once a
/// partial sum leaves the machine range.
pub open spec fn sum_run(items: Seq<ValueView>, acc: int) -> Option<int>
    decreases items.len(),
{
    if items.len() == 0 {
        Some(acc)
    } else {
        match as_num_v(items[0]) {
            Some(n) => {
                if fits_i64(acc + n) {
                    sum_run(items.drop_first(), acc + n)
                } else {
                    None
                }
            },
            None => None,
        }
    }
}

/// Sum the numbers of the top list.
pub open spec fn sp_sum(s: Seq<ValueView>) -> Option<Seq<ValueView>> {
    if s.len() >= 1 {
        match as_list_v(stk_at(s, 0)) {
            Some(items) => match sum_run(items, 0) {
                Some(total) => Some(s.drop_last().push(num_item(total))),
                None => None,
            },
            None => None,
        }
    } else {
        None
    }
}

fn prim_sum(stack: &mut Vec<Value>) -> (ok: bool)
    ensures
        pure_post(
            values_view(old(stack)@),
            values_view(final(stack)@),
            sp_sum(values_view(old(stack)@)),
            ok,
        ),
{
    let items = match peek(stack, 0) {
        Some(v) => match v.as_list() {
            Some(items) => items,
            None => {
                return false;
            },
        },
        None => {
            return false;
        },
    };
    proof {
        lemma_values_view(items@);
    }
    let ghost iv: Seq<ValueView> = values_view(items@);
    let n = items.len();
    let mut acc: i64 = 0;
    let mut i: usize = 0;
    proof {
        assert(iv.skip(0) =~= iv);
    }
    while i < n
        invariant
            n == items@.len(),
            iv == values_view(items@),
            iv.len() == n,
            forall|j: int| 0 <= j < n ==> iv[j] == value_view(items@[j]),
            i <= n,
            values_view(stack@) == values_view(old(stack)@),
            as_list_v(stk_at(values_view(old(stack)@), 0)) == Some(iv),
            values_view(old(stack)@).len() >= 1,
            sum_run(iv, 0) == sum_run(iv.skip(i as int), acc as int),
        decreases n - i,
    {
        proof {
            assert(iv.skip(i as int)[0] == iv[i as int]);
            assert(iv.skip(i as int).drop_first() =~= iv.skip(i + 1));
        }
        let x = match items[i].as_i64() {
            Some(x) => x,
            None => {
                return false;
            },
        };
        match acc.checked_add(x) {
            Some(a2) => {
                acc = a2;
            },
            None => {
                return false;
            },
        }
        i += 1;
    }
    proof {
        assert(iv.skip(n as int).len() == 0);
    }
    drop_top(stack, 1);
    push_num(stack, acc);
    proof {
        let s = values_view(old(stack)@);
        assert(s.take(s.len() - 1) =~= s.drop_last());
    }
    true
}

/// The running maximum of a number list, starting at the machine minimum.
pub open spec fn max_run(items: Seq<ValueView>, acc: int) -> Option<int>
    decreases items.len(),
{
    if items.len() == 0 {
        Some(acc)
    } else {
        match as_num_v(items[0]) {
            Some(n) => max_run(items.drop_first(), if n > acc {
                n
            } else {
                acc
            }),
            None => None,
        }
    }
}

/// The maximum number of the top list; an empty list yields the machine
/// minimum.
pub open spec fn sp_max(s: Seq<ValueView>) -> Option<Seq<ValueView>> {
    if s.len() >= 1 {
        match as_list_v(stk_at(s, 0)) {
            Some(items) => match max_run(items, i64::MIN as int) {
                Some(m) => Some(s.drop_last().push(num_item(m))),
                None => None,
            },
            None => None,
        }
    } else {
        None
    }
}

fn prim_max(stack: &mut Vec<Value>) -> (ok: bool)
    ensures
        pure_post(
            values_view(old(stack)@),
            values_view(final(stack)@),
            sp_max(values_view(old(stack)@)),
            ok,
        ),
{
    let items = match peek(stack, 0) {
        Some(v) => match v.as_list() {
            Some(items) => items,
            None => {
                return false;
            },
        },
        None => {
            return false;
        },
    };
    proof {
        lemma_values_view(items@);
    }
    let ghost iv: Seq<ValueView> = values_view(items@);
    let n = items.len();
    let mut acc: i64 = i64::MIN;
    let mut i: usize = 0;
    proof {
        assert(iv.skip(0) =~= iv);
    }
    while i < n
        invariant
            n == items@.len(),
            iv == values_view(items@),
            iv.len() == n,
            forall|j: int| 0 <= j < n ==> iv[j] == value_view(items@[j]),
            i <= n,
            values_view(stack@) == values_view(old(stack)@),
            as_list_v(stk_at(values_view(old(stack)@), 0)) == Some(iv),
            values_view(old(stack)@).len() >= 1,
            max_run(iv, i64::MIN as int) == max_run(iv.skip(i as int), acc as int),
        decreases n - i,
    {
        proof {
            assert(iv.skip(i as int)[0] == iv[i as int]);
            assert(iv.skip(i as int).drop_first() =~= iv.skip(i + 1));
        }
        let x = match items[i].as_i64() {
            Some(x) => x,
            None => {
                return false;
            },
        };
        if x > acc {
            acc = x;
        }
        i += 1;
    }
    proof {
        assert(iv.skip(n as int).len() == 0);
    }
    drop_top(stack, 1);
    push_num(stack, acc);
    proof {
        let s = values_view(old(stack)@);
        assert(s.take(s.len() - 1) =~= s.drop_last());
    }
    true
}

/// The first position of a value in a list.
pub open spec fn find_idx(items: Seq<ValueView>, needle: ValueView) -> Option<int>
    decreases items.len(),
{
    if items.len() == 0 {
        None
    } else if items[0] == needle {
        Some(0)
    } else {
        match find_idx(items.drop_first(), needle) {
            Some(i) => Some(i + 1),
            None => None,
        }
    }
}

/// Search the top list for the value under it; the found index, or a
/// poison marker where the value does not occur, is the result.
pub open spec fn sp_find(s: Seq<ValueView>) -> Option<Seq<ValueView>> {
    if s.len() >= 2 {
        match as_list_v(stk_at(s, 0)) {
            Some(items) => {
                let needle = stk_at(s, 1);
                match find_idx(items, needle) {
                    Some(i) => {
                        if i <= i64::MAX {
                            Some(s.take(s.len() - 2).push(num_item(i)))
                        } else {
                            None
                        }
                    },
                    None => Some(s.take(s.len() - 2).push(ValueView::Poison)),
                }
            },
            None => None,
        }
    } else {
        None
    }
}

fn prim_find(stack: &mut Vec<Value>) -> (ok: bool)
    ensures
        pure_post(
            values_view(old(stack)@),
            values_view(final(stack)@),
            sp_find(values_view(old(stack)@)),
            ok,
        ),
{
    if stack.len() < 2 {
        proof {
            lemma_values_view(stack@);
        }
        return false;
    }
    let items = match peek(stack, 0) {
        Some(v) => match v.as_list() {
            Some(items) => items,
            None => {
                return false;
            },
        },
        None => {
            return false;
        },
    };
    proof {
        lemma_values_view(items@);
        lemma_values_view(stack@);
    }
    let ghost iv: Seq<ValueView> = values_view(items@);
    let ghost needle_v: ValueView = stk_at(values_view(stack@), 1);
    let n = items.len();
    let mut i: usize = 0;
    proof {
        assert(iv.skip(0) =~= iv);
    }
    while i < n
        invariant
            n == items@.len(),
            iv == values_view(items@),
            iv.len() == n,
            forall|j: int| 0 <= j < n ==> iv[j] == value_view(items@[j]),
            i <= n,
            values_view(stack@) == values_view(old(stack)@),
            values_view(stack@).len() >= 2,
            as_list_v(stk_at(values_view(old(stack)@), 0)) == Some(iv),
            stk_at(values_view(old(stack)@), 1) == needle_v,
            match find_idx(iv, needle_v) {
                Some(k) => find_idx(iv.skip(i as int), needle_v) matches Some(k2) && k == k2 + i,
                None => find_idx(iv.skip(i as int), needle_v) is None,
            },
        decreases n - i,
    {
        proof {
            assert(iv.skip(i as int)[0] == iv[i as int]);
            assert(iv.skip(i as int).drop_first() =~= iv.skip(i + 1));
        }
        let hit = match peek(stack, 1) {
            Some(nv) => {
                match crate::valueorder::cmp_value_exec(&items[i], nv) {
                    crate::order::Cmp::Eq => true,
                    _ => false,
                }
            },
            None => {
                proof {
                    assert(false);
                }
                false
            },
        };
        proof {
            crate::valueorder::lemma_cmp_value_eq(iv[i as int], needle_v);
        }
        if hit {
            proof {
                assert(find_idx(iv.skip(i as int), needle_v) matches Some(z) && z == 0);
            }
            if (i as u64) <= (i64::MAX as u64) {
                drop_top(stack, 2);
                push_num(stack, i as i64);
                return true;
            } else {
                return false;
            }
        }
        i += 1;
    }
    proof {
        assert(iv.skip(n as int).len() == 0);
    }
    drop_top(stack, 2);
    push_value(stack, Value::new_poison());
    true
}

} // verus!

verus! {

/// Extend the first piece of a non-empty piece list on the left.
pub open spec fn vprepend_first(p: Seq<ValueView>, ps: Seq<Seq<ValueView>>) -> Seq<Seq<ValueView>>
    recommends
        ps.len() > 0,
{
    seq![p + ps[0]] + ps.drop_first()
}

/// The pieces of a list split at every element equal to the separator.
pub open spec fn vpieces(items: Seq<ValueView>, sep: ValueView) -> Seq<Seq<ValueView>>
    decreases items.len(),
{
    if items.len() == 0 {
        seq![Seq::<ValueView>::empty()]
    } else if items[0] == sep {
        seq![Seq::<ValueView>::empty()] + vpieces(items.skip(1), sep)
    } else {
        vprepend_first(seq![items[0]], vpieces(items.skip(1), sep))
    }
}

/// A split always yields at least one piece.
pub proof fn lemma_vpieces_len(items: Seq<ValueView>, sep: ValueView)
    ensures
        vpieces(items, sep).len() > 0,
    decreases items.len(),
{
    if items.len() > 0 {
        lemma_vpieces_len(items.skip(1), sep);
    }
}

/// Pieces as list values, piece by piece.
pub open spec fn lists_items(ps: Seq<Seq<ValueView>>) -> Seq<ValueView>
    decreases ps,
{
    if ps.len() == 0 {
        Seq::empty()
    } else {
        lists_items(ps.subrange(0, ps.len() - 1)).push(list_item(ps[ps.len() - 1]))
    }
}

/// `lists_items` maps `list_item` over the pieces.
pub proof fn lemma_lists_items(ps: Seq<Seq<ValueView>>)
    ensures
        lists_items(ps).len() == ps.len(),
        forall|i: int| 0 <= i < ps.len() ==> lists_items(ps)[i] == list_item(ps[i]),
    decreases ps,
{
    if ps.len() > 0 {
        lemma_lists_items(ps.subrange(0, ps.len() - 1));
    }
}

/// Split the top list at every element equal to the separator under it.
pub open spec fn sp_split(s: Seq<ValueView>) -> Option<Seq<ValueView>> {
    if s.len() >= 2 {
        match as_list_v(stk_at(s, 1)) {
            Some(items) => {
                let sep = stk_at(s, 0);
                Some(s.take(s.len() - 2).push(list_item(lists_items(vpieces(items, sep)))))
            },
            None => None,
        }
    } else {
        None
    }
}

fn prim_split(stack: &mut Vec<Value>) -> (ok: bool)
    ensures
        pure_post(
            values_view(old(stack)@),
            values_view(final(stack)@),
            sp_split(values_view(old(stack)@)),
            ok,
        ),
{
    if stack.len() < 2 {
        proof {
            lemma_values_view(stack@);
        }
        return false;
    }
    let items = match peek(stack, 1) {
        Some(v) => match v.as_list() {
            Some(items) => items,
            None => {
                return false;
            },
        },
        None => {
            return false;
        },
    };
    proof {
        lemma_values_view(items@);
        lemma_values_view(stack@);
    }
    let ghost iv: Seq<ValueView> = values_view(items@);
    let ghost sepv: ValueView = stk_at(values_view(stack@), 0);
    let mut out: Vec<Value> = Vec::new();
    let mut cur: Vec<Value> = Vec::new();
    let ghost done0: Seq<Seq<ValueView>> = Seq::empty();
    let ghost mut done: Seq<Seq<ValueView>> = done0;
    let n = items.len();
    let mut i: usize = 0;
    proof {
        assert(iv.skip(0) =~= iv);
        lemma_values_view(cur@);
        lemma_values_view(out@);
        assert(values_view(out@) =~= lists_items(done));
        assert(values_view(cur@) =~= Seq::<ValueView>::empty());
    }
    while i < n
        invariant
            n == items@.len(),
            iv == values_view(items@),
            iv.len() == n,
            forall|j: int| 0 <= j < n ==> iv[j] == value_view(items@[j]),
            i <= n,
            values_view(stack@) == values_view(old(stack)@),
            values_view(stack@).len() >= 2,
            stk_at(values_view(stack@), 0) == sepv,
            values_view(out@) == lists_items(done),
            vpieces(iv, sepv) == done + vprepend_first(
                values_view(cur@),
                vpieces(iv.skip(i as int), sepv),
            ),
        decreases n - i,
    {
        proof {
            assert(iv.skip(i as int)[0] == iv[i as int]);
            assert(iv.skip(i as int).drop_first() =~= iv.skip(i + 1));
            lemma_vpieces_len(iv.skip(i + 1), sepv);
        }
        let is_sep = match peek(stack, 0) {
            Some(sv) => {
                match crate::valueorder::cmp_value_exec(&items[i], sv) {
                    crate::order::Cmp::Eq => true,
                    _ => false,
                }
            },
            None => {
                proof {
                    assert(false);
                }
                false
            },
        };
        proof {
            crate::valueorder::lemma_cmp_value_eq(iv[i as int], sepv);
        }
        let ghost curv: Seq<ValueView> = values_view(cur@);
        let ghost rest: Seq<Seq<ValueView>> = vpieces(iv.skip(i as int), sepv);
        let ghost rest1: Seq<Seq<ValueView>> = vpieces(iv.skip(i + 1), sepv);
        if is_sep {
            let mut piece: Vec<Value> = Vec::new();
            core::mem::swap(&mut piece, &mut cur);
            push_list(&mut out, piece);
            proof {
                let done1 = done.push(curv);
                lemma_lists_items(done);
                lemma_lists_items(done1);
                assert forall|j: int| 0 <= j < done1.len() implies lists_items(done1)[j]
                    == lists_items(done).push(list_item(curv))[j] by {
                    if j < done.len() {
                        assert(done1[j] == done[j]);
                    } else {
                        assert(done1[j] == curv);
                    }
                }
                assert(lists_items(done1) =~= lists_items(done).push(list_item(curv)));
                lemma_values_view(cur@);
                assert(values_view(cur@) =~= Seq::<ValueView>::empty());
                assert(rest =~= seq![Seq::<ValueView>::empty()] + rest1);
                assert(vprepend_first(curv, rest) =~= seq![curv] + rest1);
                assert(vprepend_first(values_view(cur@), rest1) =~= rest1);
                assert(done1 + vprepend_first(values_view(cur@), rest1) =~= done + vprepend_first(
                    curv,
                    rest,
                ));
                done = done1;
            }
        } else {
            let v = items[i].duplicate();
            push_value(&mut cur, v);
            proof {
                assert(rest =~= vprepend_first(seq![iv[i as int]], rest1));
                assert(curv + (seq![iv[i as int]] + rest1[0]) =~= values_view(cur@) + rest1[0]);
                assert(vprepend_first(curv, rest) =~= vprepend_first(values_view(cur@), rest1));
            }
        }
        i += 1;
    }
    let ghost curv: Seq<ValueView> = values_view(cur@);
    push_list(&mut out, cur);
    proof {
        let done1 = done.push(curv);
        lemma_lists_items(done);
        lemma_lists_items(done1);
        assert forall|j: int| 0 <= j < done1.len() implies lists_items(done1)[j] == lists_items(
            done,
        ).push(list_item(curv))[j] by {
            if j < done.len() {
                assert(done1[j] == done[j]);
            } else {
                assert(done1[j] == curv);
            }
        }
        assert(lists_items(done1) =~= lists_items(done).push(list_item(curv)));
        assert(iv.skip(n as int).len() == 0);
        assert(vprepend_first(curv, vpieces(iv.skip(n as int), sepv)) =~= seq![curv]);
        assert(vpieces(iv, sepv) =~= done1);
        assert(values_view(out@) == lists_items(vpieces(iv, sepv)));
        done = done1;
    }
    drop_top(stack, 2);
    push_list(stack, out);
    true
}

/// Insert a value into a descending list, after any equals.
pub open spec fn insert_desc(sorted: Seq<ValueView>, v: ValueView) -> Seq<ValueView>
    decreases sorted.len(),
{
    if sorted.len() == 0 {
        seq![v]
    } else if crate::valueorder::cmp_value(v, sorted[0]) > 0 {
        seq![v] + sorted
    } else {
        seq![sorted[0]] + insert_desc(sorted.drop_first(), v)
    }
}

/// The list sorted in descending order, stably.
pub open spec fn rsorted(items: Seq<ValueView>) -> Seq<ValueView>
    decreases items.len(),
{
    if items.len() == 0 {
        Seq::empty()
    } else {
        insert_desc(rsorted(items.drop_last()), items.last())
    }
}

/// Sort the top list in descending order.
pub open spec fn sp_rsort(s: Seq<ValueView>) -> Option<Seq<ValueView>> {
    if s.len() >= 1 {
        match as_list_v(stk_at(s, 0)) {
            Some(items) => Some(s.drop_last().push(list_item(rsorted(items)))),
            None => None,
        }
    } else {
        None
    }
}

/// Insert a value into a descending vector, after any equals.
fn insert_desc_exec(sorted: &Vec<Value>, v: Value) -> (out: Vec<Value>)
    ensures
        values_view(out@) == insert_desc(values_view(sorted@), value_view(v)),
{
    proof {
        lemma_values_view(sorted@);
    }
    let ghost sv: Seq<ValueView> = values_view(sorted@);
    let ghost vv: ValueView = value_view(v);
    let n = sorted.len();
    let mut k: usize = 0;
    proof {
        assert(sv.skip(0) =~= sv);
        assert(sv.take(0) =~= Seq::<ValueView>::empty());
    }
    let mut stop = false;
    while k < n && !stop
        invariant
            n == sorted@.len(),
            sv == values_view(sorted@),
            sv.len() == n,
            forall|j: int| 0 <= j < n ==> sv[j] == value_view(sorted@[j]),
            vv == value_view(v),
            k <= n,
            insert_desc(sv, vv) == sv.take(k as int) + insert_desc(sv.skip(k as int), vv),
            stop ==> k < n && crate::valueorder::cmp_value(vv, sv[k as int]) > 0,
        decreases n - k, (if stop { 0int } else { 1int }),
    {
        proof {
            assert(sv.skip(k as int)[0] == sv[k as int]);
            assert(sv.skip(k as int).drop_first() =~= sv.skip(k + 1));
        }
        let c = crate::valueorder::cmp_value_exec(&v, &sorted[k]);
        match c {
            crate::order::Cmp::Gt => {
                stop = true;
            },
            _ => {
                proof {
                    assert(sv.take(k + 1) =~= sv.take(k as int) + seq![sv[k as int]]);
                    assert(sv.take(k as int) + (seq![sv[k as int]] + insert_desc(
                        sv.skip(k + 1),
                        vv,
                    )) =~= sv.take(k + 1) + insert_desc(sv.skip(k + 1), vv));
                }
                k += 1;
            },
        }
    }
    proof {
        if stop {
            assert(sv.skip(k as int)[0] == sv[k as int]);
            assert(insert_desc(sv.skip(k as int), vv) =~= seq![vv] + sv.skip(k as int));
        } else {
            assert(k == n);
            assert(sv.skip(n as int).len() == 0);
            assert(insert_desc(sv.skip(n as int), vv) =~= seq![vv]);
            assert(sv.take(n as int) =~= sv);
        }
    }
    let mut out = copy_range(sorted, 0, k);
    push_value(&mut out, v);
    let ghost mid: Seq<ValueView> = values_view(out@);
    let mut j: usize = k;
    while j < n
        invariant
            n == sorted@.len(),
            sv == values_view(sorted@),
            sv.len() == n,
            forall|t: int| 0 <= t < n ==> sv[t] == value_view(sorted@[t]),
            k <= j <= n,
            mid == sv.take(k as int).push(vv),
            values_view(out@) == mid + sv.subrange(k as int, j as int),
        decreases n - j,
    {
        let w = sorted[j].duplicate();
        push_value(&mut out, w);
        proof {
            assert((mid + sv.subrange(k as int, j as int)).push(sv[j as int]) =~= mid
                + sv.subrange(k as int, j + 1));
        }
        j += 1;
    }
    proof {
        assert(values_view(out@) =~= sv.take(k as int) + (seq![vv] + sv.skip(k as int)));
        assert(values_view(out@) =~= insert_desc(sv, vv));
    }
    out
}

fn prim_rsort(stack: &mut Vec<Value>) -> (ok: bool)
    ensures
        pure_post(
            values_view(old(stack)@),
            values_view(final(stack)@),
            sp_rsort(values_view(old(stack)@)),
            ok,
        ),
{
    let items = match peek(stack, 0) {
        Some(v) => match v.as_list() {
            Some(items) => items,
            None => {
                return false;
            },
        },
        None => {
            return false;
        },
    };
    proof {
        lemma_values_view(items@);
    }
    let ghost iv: Seq<ValueView> = values_view(items@);
    let n = items.len();
    let mut out: Vec<Value> = Vec::new();
    let mut i: usize = 0;
    proof {
        lemma_values_view(out@);
        assert(iv.take(0) =~= Seq::<ValueView>::empty());
        assert(values_view(out@) =~= rsorted(iv.take(0)));
    }
    while i < n
        invariant
            n == items@.len(),
            iv == values_view(items@),
            iv.len() == n,
            forall|j: int| 0 <= j < n ==> iv[j] == value_view(items@[j]),
            i <= n,
            values_view(out@) == rsorted(iv.take(i as int)),
        decreases n - i,
    {
        let v = items[i].duplicate();
        let out2 = insert_desc_exec(&out, v);
        out = out2;
        proof {
            assert(iv.take(i + 1).drop_last() =~= iv.take(i as int));
            assert(iv.take(i + 1).last() == iv[i as int]);
        }
        i += 1;
    }
    drop_top(stack, 1);
    proof {
        assert(iv.take(n as int) =~= iv);
        let s = values_view(old(stack)@);
        assert(s.take(s.len() - 1) =~= s.drop_last());
    }
    push_list(stack, out);
    true
}

} // verus!

verus! {

/// One unfolding step of a mapped run, for use where the definition is
/// out of reach.
pub proof fn lemma_map_run_unfold(
    fuel: nat,
    items: Seq<ValueView>,
    parent: VMView,
    qc: CursorView,
    t: Seq<(ShapeView, Seq<VMView>)>,
    fs: Seq<(Seq<char>, Seq<char>)>,
)
    requires
        items.len() > 0,
    ensures
        map_run_spec(fuel, items, parent, qc, t, fs) == (match eval_cursor_spec(
            fuel,
            vm_child_of(parent, seq![items[0]]),
            t,
            qc,
            fs,
        ) {
            None => None,
            Some((cvm, t2, f2)) => {
                match map_run_spec(fuel_cap(f2, fuel), items.drop_first(), parent, qc, t2, fs) {
                    None => None,
                    Some((more, t3, f3)) => Some((cvm.stack + more, t3, f3)),
                }
            },
        }),
{
}

/// An empty mapped run yields nothing and keeps its fuel.
pub proof fn lemma_map_run_empty(
    fuel: nat,
    items: Seq<ValueView>,
    parent: VMView,
    qc: CursorView,
    t: Seq<(ShapeView, Seq<VMView>)>,
    fs: Seq<(Seq<char>, Seq<char>)>,
)
    requires
        items.len() == 0,
    ensures
        map_run_spec(fuel, items, parent, qc, t, fs) == Some(
            (Seq::<ValueView>::empty(), t, fuel),
        ),
{
}

/// A capped fuel value that already fits is unchanged.
pub proof fn lemma_fuel_cap(f: nat, bound: nat)
    requires
        f <= bound,
    ensures
        fuel_cap(f, bound) == f,
{
}

/// A captured quote pushed onto a stack.
pub open spec fn quote_item(c: CursorView) -> ValueView {
    ValueView::Quote { pos: Box::new(c) }
}

/// The outcome of a pure primitive: the new stack, or a failed rule.
pub open spec fn prim_result(
    name: Seq<char>,
    s: Seq<ValueView>,
    fs: Seq<(Seq<char>, Seq<char>)>,
) -> Option<Seq<ValueView>> {
    if name == "del"@ {
        sp_del(s)
    } else if name == "dup"@ {
        sp_dup(s)
    } else if name == "flip"@ {
        sp_flip(s)
    } else if name == "copy"@ {
        sp_copy(s)
    } else if name == "move"@ {
        sp_move(s)
    } else if name == "sb"@ {
        sp_sb(s)
    } else if name == "s"@ {
        sp_replace(s)
    } else if name == "inc"@ {
        sp_inc(s)
    } else if name == "+"@ {
        sp_add(s)
    } else if name == "*"@ {
        sp_mul(s)
    } else if name == "/"@ {
        sp_div(s)
    } else if name == "=="@ {
        sp_eqv(s)
    } else if name == "=<"@ {
        sp_le(s)
    } else if name == ">="@ {
        sp_ge(s)
    } else if name == "and"@ {
        sp_and(s)
    } else if name == "or"@ {
        sp_or(s)
    } else if name == "read"@ {
        sp_read(s, fs)
    } else if name == "lines"@ {
        sp_lines(s)
    } else if name == "words"@ {
        sp_words(s)
    } else if name == "split"@ {
        sp_split(s)
    } else if name == "splitat"@ {
        sp_splitat(s)
    } else if name == "take"@ {
        sp_take(s)
    } else if name == "irange"@ {
        sp_irange(s)
    } else if name == "crange"@ {
        sp_crange(s)
    } else if name == "indexed"@ {
        sp_indexed(s)
    } else if name == "num"@ {
        sp_num(s)
    } else if name == "each"@ {
        sp_each(s)
    } else if name == "set"@ {
        sp_set(s)
    } else if name == "nub"@ {
        sp_nub(s)
    } else if name == "iota"@ {
        sp_iota(s)
    } else if name == "chunks"@ {
        sp_chunks(s)
    } else if name == "frames"@ {
        sp_frames(s)
    } else if name == "len"@ {
        sp_len(s)
    } else if name == "sum"@ {
        sp_sum(s)
    } else if name == "max"@ {
        sp_max(s)
    } else if name == "rsort"@ {
        sp_rsort(s)
    } else if name == "append"@ {
        sp_append(s)
    } else if name == "find"@ {
        sp_find(s)
    } else if name == "union"@ {
        sp_union_prim(s)
    } else if name == "join"@ {
        sp_join_prim(s)
    } else if name == "shape"@ {
        sp_shape(s)
    } else {
        None
    }
}

/// Run the pure primitive named on a stack.
fn eval_pure(name: &Vec<char>, stack: &mut Vec<Value>, files: &FileStore) -> (ok: bool)
    ensures
        pure_post(
            values_view(old(stack)@),
            values_view(final(stack)@),
            prim_result(name@, values_view(old(stack)@), files@),
            ok,
        ),
{
    if crate::text::text_is(name, "del") {
        prim_del(stack)
    } else if crate::text::text_is(name, "dup") {
        prim_dup(stack)
    } else if crate::text::text_is(name, "flip") {
        prim_flip(stack)
    } else if crate::text::text_is(name, "copy") {
        prim_copy(stack)
    } else if crate::text::text_is(name, "move") {
        prim_move(stack)
    } else if crate::text::text_is(name, "sb") {
        prim_sb(stack)
    } else if crate::text::text_is(name, "s") {
        prim_replace(stack)
    } else if crate::text::text_is(name, "inc") {
        prim_inc(stack)
    } else if crate::text::text_is(name, "+") {
        prim_add(stack)
    } else if crate::text::text_is(name, "*") {
        prim_mul(stack)
    } else if crate::text::text_is(name, "/") {
        prim_div(stack)
    } else if crate::text::text_is(name, "==") {
        prim_eqv(stack)
    } else if crate::text::text_is(name, "=<") {
        prim_le(stack)
    } else if crate::text::text_is(name, ">=") {
        prim_ge(stack)
    } else if crate::text::text_is(name, "and") {
        prim_and(stack)
    } else if crate::text::text_is(name, "or") {
        prim_or(stack)
    } else if crate::text::text_is(name, "read") {
        prim_read(stack, files)
    } else if crate::text::text_is(name, "lines") {
        prim_lines(stack)
    } else if crate::text::text_is(name, "words") {
        prim_words(stack)
    } else if crate::text::text_is(name, "split") {
        prim_split(stack)
    } else if crate::text::text_is(name, "splitat") {
        prim_splitat(stack)
    } else if crate::text::text_is(name, "take") {
        prim_take(stack)
    } else if crate::text::text_is(name, "irange") {
        prim_irange(stack)
    } else if crate::text::text_is(name, "crange") {
        prim_crange(stack)
    } else if crate::text::text_is(name, "indexed") {
        prim_indexed(stack)
    } else if crate::text::text_is(name, "num") {
        prim_num(stack)
    } else if crate::text::text_is(name, "each") {
        prim_each(stack)
    } else if crate::text::text_is(name, "set") {
        prim_set(stack)
    } else if crate::text::text_is(name, "nub") {
        prim_nub(stack)
    } else if crate::text::text_is(name, "iota") {
        prim_iota(stack)
    } else if crate::text::text_is(name, "chunks") {
        prim_chunks(stack)
    } else if crate::text::text_is(name, "frames") {
        prim_frames(stack)
    } else if crate::text::text_is(name, "len") {
        prim_len(stack)
    } else if crate::text::text_is(name, "sum") {
        prim_sum(stack)
    } else if crate::text::text_is(name, "max") {
        prim_max(stack)
    } else if crate::text::text_is(name, "rsort") {
        prim_rsort(stack)
    } else if crate::text::text_is(name, "append") {
        prim_append(stack)
    } else if crate::text::text_is(name, "find") {
        prim_find(stack)
    } else if crate::text::text_is(name, "union") {
        prim_union(stack)
    } else if crate::text::text_is(name, "join") {
        prim_join(stack)
    } else if crate::text::text_is(name, "shape") {
        prim_shape(stack)
    } else {
        false
    }
}

} // verus!

verus! {

/// Cap a fuel value; within the evaluator the cap never binds, since
/// nested runs only consume fuel.
pub open spec fn fuel_cap(f: nat, bound: nat) -> nat {
    if f < bound {
        f
    } else {
        bound
    }
}

/// Evaluate from a cursor: record a snapshot at the current shape, then
/// step through the remaining expressions.  The result carries the final
/// machine, the extended trace and the remaining fuel; exhausted fuel is
/// the one way to fail.
pub open spec fn eval_cursor_spec(
    fuel: nat,
    vm: VMView,
    t: Seq<(ShapeView, Seq<VMView>)>,
    c: CursorView,
    fs: Seq<(Seq<char>, Seq<char>)>,
) -> Option<(VMView, Seq<(ShapeView, Seq<VMView>)>, nat)>
    decreases fuel, 3nat, 0nat,
{
    eval_steps_spec(fuel, vm, trace_add(t, shape_of(c), vm), c, fs)
}

/// Step through the expressions after the cursor, recording a snapshot
/// after each step.
pub open spec fn eval_steps_spec(
    fuel: nat,
    vm: VMView,
    t: Seq<(ShapeView, Seq<VMView>)>,
    c: CursorView,
    fs: Seq<(Seq<char>, Seq<char>)>,
) -> Option<(VMView, Seq<(ShapeView, Seq<VMView>)>, nat)>
    decreases fuel, 2nat, 0nat,
{
    match next_expr_of(c) {
        None => Some((vm, t, fuel)),
        Some(e) => {
            if fuel == 0 {
                None
            } else {
                let c2 = moved_right(c);
                match step_expr_spec((fuel - 1) as nat, e, vm, t, c2, fs) {
                    None => None,
                    Some((vm2, t2, f2)) => {
                        let t3 = trace_add(t2, shape_of(c2), vm2);
                        eval_steps_spec(fuel_cap(f2, (fuel - 1) as nat), vm2, t3, c2, fs)
                    },
                }
            }
        },
    }
}

/// Execute one consumed expression: dispatch an identifier, push a
/// literal, or capture a quote as the position just entered.
pub open spec fn step_expr_spec(
    fuel: nat,
    e: ExprView,
    vm: VMView,
    t: Seq<(ShapeView, Seq<VMView>)>,
    c2: CursorView,
    fs: Seq<(Seq<char>, Seq<char>)>,
) -> Option<(VMView, Seq<(ShapeView, Seq<VMView>)>, nat)>
    decreases fuel, 1nat, 0nat,
{
    match e {
        ExprView::Ident { text } => eval_prim_spec(fuel, text, vm, t, fs),
        ExprView::StrLit { text } => Some(
            (vm_with_stack(vm, vm.stack.push(str_view(text))), t, fuel),
        ),
        ExprView::NumLit { n } => {
            if fits_i64(n) {
                Some((vm_with_stack(vm, vm.stack.push(num_item(n))), t, fuel))
            } else {
                Some((vm_with_stack(vm, vm.stack.push(ValueView::Poison)), t, fuel))
            }
        },
        ExprView::Quote { .. } => {
            let qc = moved_very_left(moved_up(c2));
            Some((vm_with_stack(vm, vm.stack.push(quote_item(qc))), t, fuel))
        },
    }
}

/// The child-collecting primitive: evaluate the popped quote in a fresh
/// child machine and push its final stack as a list.
pub open spec fn collect_step(
    fuel: nat,
    vm: VMView,
    t: Seq<(ShapeView, Seq<VMView>)>,
    fs: Seq<(Seq<char>, Seq<char>)>,
) -> Option<(VMView, Seq<(ShapeView, Seq<VMView>)>, nat)>
    decreases fuel, 0nat, 2nat,
{
    let s = vm.stack;
    if s.len() >= 1 && as_quote_v(stk_at(s, 0)) is Some {
        let qc = as_quote_v(stk_at(s, 0))->0;
        let vm1 = vm_with_stack(vm, s.drop_last());
        if fuel == 0 {
            None
        } else {
            match eval_cursor_spec((fuel - 1) as nat, vm_child_of(vm1, Seq::empty()), t, qc, fs) {
                None => None,
                Some((cvm, t2, f2)) => Some(
                    (vm_with_stack(vm1, vm1.stack.push(list_item(cvm.stack))), t2, f2),
                ),
            }
        }
    } else {
        Some((vm_with_stack(vm, s.push(ValueView::Poison)), t, fuel))
    }
}

/// The mapping primitive: run the popped quote over each element of the
/// popped list and push the concatenated results.
pub open spec fn map_step(
    fuel: nat,
    vm: VMView,
    t: Seq<(ShapeView, Seq<VMView>)>,
    fs: Seq<(Seq<char>, Seq<char>)>,
) -> Option<(VMView, Seq<(ShapeView, Seq<VMView>)>, nat)>
    decreases fuel, 0nat, 2nat,
{
    let s = vm.stack;
    if s.len() >= 2 && as_quote_v(stk_at(s, 0)) is Some && as_list_v(stk_at(s, 1)) is Some {
        let qc = as_quote_v(stk_at(s, 0))->0;
        let items = as_list_v(stk_at(s, 1))->0;
        let vm2 = vm_with_stack(vm, s.take(s.len() - 2));
        if fuel == 0 {
            None
        } else {
            match map_run_spec((fuel - 1) as nat, items, vm2, qc, t, fs) {
                None => None,
                Some((results, t2, f2)) => Some(
                    (vm_with_stack(vm2, vm2.stack.push(list_item(results))), t2, f2),
                ),
            }
        }
    } else {
        Some((vm_with_stack(vm, s.push(ValueView::Poison)), t, fuel))
    }
}

/// The hiding primitive: run the popped quote with the top values set
/// aside, then put them back above its result.
pub open spec fn under_step(
    fuel: nat,
    vm: VMView,
    t: Seq<(ShapeView, Seq<VMView>)>,
    fs: Seq<(Seq<char>, Seq<char>)>,
) -> Option<(VMView, Seq<(ShapeView, Seq<VMView>)>, nat)>
    decreases fuel, 0nat, 2nat,
{
    let s = vm.stack;
    if s.len() >= 2 && as_num_v(stk_at(s, 0)) is Some && as_quote_v(stk_at(s, 1)) is Some && 0
        <= as_num_v(stk_at(s, 0))->0 <= s.len() - 2 {
        let n = as_num_v(stk_at(s, 0))->0;
        let qc = as_quote_v(stk_at(s, 1))->0;
        let s2 = s.take(s.len() - 2);
        let kept = s2.take(s2.len() - n);
        let temp = s2.skip(s2.len() - n);
        if fuel == 0 {
            None
        } else {
            match eval_cursor_spec((fuel - 1) as nat, vm_with_stack(vm, kept), t, qc, fs) {
                None => None,
                Some((vm3, t2, f2)) => Some((vm_with_stack(vm3, vm3.stack + temp), t2, f2)),
            }
        }
    } else {
        Some((vm_with_stack(vm, s.push(ValueView::Poison)), t, fuel))
    }
}

/// Dispatch one identifier against the machine: the three child-scope
/// primitives run nested evaluations; everything else is a pure rule, and
/// a failed rule leaves the operands and pushes one poison marker.
pub open spec fn eval_prim_spec(
    fuel: nat,
    name: Seq<char>,
    vm: VMView,
    t: Seq<(ShapeView, Seq<VMView>)>,
    fs: Seq<(Seq<char>, Seq<char>)>,
) -> Option<(VMView, Seq<(ShapeView, Seq<VMView>)>, nat)>
    decreases fuel, 0nat, 3nat,
{
    if name == "collect"@ {
        collect_step(fuel, vm, t, fs)
    } else if name == "map"@ {
        map_step(fuel, vm, t, fs)
    } else if name == "under"@ {
        under_step(fuel, vm, t, fs)
    } else {
        match prim_result(name, vm.stack, fs) {
            Some(st) => Some((vm_with_stack(vm, st), t, fuel)),
            None => Some((vm_with_stack(vm, vm.stack.push(ValueView::Poison)), t, fuel)),
        }
    }
}

/// Map a quote over a list: each element runs in a fresh child machine
/// holding just that element, and the resulting stacks are concatenated.
pub open spec fn map_run_spec(
    fuel: nat,
    items: Seq<ValueView>,
    parent: VMView,
    qc: CursorView,
    t: Seq<(ShapeView, Seq<VMView>)>,
    fs: Seq<(Seq<char>, Seq<char>)>,
) -> Option<(Seq<ValueView>, Seq<(ShapeView, Seq<VMView>)>, nat)>
    decreases fuel, 4nat, items.len(),
{
    if items.len() == 0 {
        Some((Seq::empty(), t, fuel))
    } else {
        match eval_cursor_spec(fuel, vm_child_of(parent, seq![items[0]]), t, qc, fs) {
            None => None,
            Some((cvm, t2, f2)) => {
                match map_run_spec(fuel_cap(f2, fuel), items.drop_first(), parent, qc, t2, fs) {
                    None => None,
                    Some((more, t3, f3)) => Some((cvm.stack + more, t3, f3)),
                }
            },
        }
    }
}

} // verus!

verus! {

impl VM {
    /// Push one value.
    fn push(&mut self, v: Value)
        ensures
            final(self)@ == vm_with_stack(old(self)@, old(self)@.stack.push(value_view(v))),
    {
        push_value(&mut self.stack, v);
        proof {
            assert(final(self)@ =~= vm_with_stack(
                old(self)@,
                old(self)@.stack.push(value_view(v)),
            ));
        }
    }

    /// Drop the top value.
    fn drop_one(&mut self)
        requires
            old(self)@.stack.len() >= 1,
        ensures
            final(self)@ == vm_with_stack(old(self)@, old(self)@.stack.drop_last()),
    {
        proof {
            lemma_values_view(self.stack@);
        }
        let _ = self.stack.pop();
        proof {
            lemma_values_view(self.stack@);
            assert(values_view(self.stack@) =~= old(self)@.stack.drop_last());
            assert(final(self)@ =~= vm_with_stack(old(self)@, old(self)@.stack.drop_last()));
        }
    }

    /// Drop the top values.
    fn drop_two(&mut self)
        requires
            old(self)@.stack.len() >= 2,
        ensures
            final(self)@ == vm_with_stack(
                old(self)@,
                old(self)@.stack.take(old(self)@.stack.len() - 2),
            ),
    {
        proof {
            lemma_values_view(self.stack@);
        }
        drop_top(&mut self.stack, 2);
        proof {
            assert(final(self)@ =~= vm_with_stack(
                old(self)@,
                old(self)@.stack.take(old(self)@.stack.len() - 2),
            ));
        }
    }
}

/// Whether a code is a valid character: below the surrogate range, or
/// between it and the last code point.
pub open spec fn valid_scalar(x: int) -> bool {
    (0 <= x < 0xD800) || (0xE000 <= x <= 0x10FFFF)
}

/// The single-character strings for every valid code in a range.
pub open spec fn crange_items(lo: int, hi: int) -> Seq<ValueView>
    decreases hi - lo + 1,
{
    if lo > hi {
        Seq::empty()
    } else if valid_scalar(lo) {
        seq![str_view(seq![lo as char])] + crange_items(lo + 1, hi)
    } else {
        crange_items(lo + 1, hi)
    }
}

/// The inclusive character range between the two top characters, as a
/// list of single-character strings.
pub open spec fn sp_crange(s: Seq<ValueView>) -> Option<Seq<ValueView>> {
    if s.len() >= 2 {
        match (as_char_v(stk_at(s, 1)), as_char_v(stk_at(s, 0))) {
            (Some(lo), Some(hi)) => Some(
                s.take(s.len() - 2).push(list_item(crange_items(lo as int, hi as int))),
            ),
            _ => None,
        }
    } else {
        None
    }
}

fn prim_crange(stack: &mut Vec<Value>) -> (ok: bool)
    ensures
        pure_post(
            values_view(old(stack)@),
            values_view(final(stack)@),
            sp_crange(values_view(old(stack)@)),
            ok,
        ),
{
    let lo_c = match peek(stack, 1) {
        Some(v) => match v.as_char() {
            Some(c) => c,
            None => {
                return false;
            },
        },
        None => {
            return false;
        },
    };
    let hi_c = match peek(stack, 0) {
        Some(v) => match v.as_char() {
            Some(c) => c,
            None => {
                return false;
            },
        },
        None => {
            return false;
        },
    };
    let lo = lo_c as u32;
    let hi = hi_c as u32;
    let mut out: Vec<Value> = Vec::new();
    let mut x = lo;
    proof {
        lemma_values_view(out@);
        assert(values_view(out@) =~= Seq::<ValueView>::empty());
    }
    while x <= hi
        invariant
            lo as int == lo_c as int,
            hi as int == hi_c as int,
            hi <= 0x10FFFF,
            crange_items(lo as int, hi as int) == values_view(out@) + crange_items(
                x as int,
                hi as int,
            ),
        decreases hi + 1 - x,
    {
        match crate::text::char_from_u32(x) {
            Some(c) => {
                proof {
                    assert(valid_scalar(x as int));
                    assert(((x as int) as char) as int == x as int);
                    assert(c as u32 == ((x as int) as char) as u32);
                    assert(c == ((x as int) as char)) by {
                        crate::valueorder::lemma_char_code_injective(c, (x as int) as char);
                    }
                }
                let mut one: Vec<char> = Vec::new();
                one.push(c);
                proof {
                    assert(one@ =~= seq![c]);
                }
                push_value(&mut out, Value::new_str_chars(one));
            },
            None => {
                proof {
                    assert(!valid_scalar(x as int));
                }
            },
        }
        x = x + 1;
    }
    proof {
        assert(crange_items(x as int, hi as int) =~= Seq::<ValueView>::empty());
        assert(values_view(out@) + Seq::<ValueView>::empty() =~= values_view(out@));
    }
    drop_top(stack, 2);
    push_list(stack, out);
    true
}

/// Describe the top value's structural type.
pub open spec fn sp_shape(s: Seq<ValueView>) -> Option<Seq<ValueView>> {
    if s.len() >= 1 {
        Some(
            s.drop_last().push(
                crate::shape::repr_v(crate::shape::val_shape(stk_at(s, 0))),
            ),
        )
    } else {
        None
    }
}

/// Describe the top value's structural type.
fn prim_shape(stack: &mut Vec<Value>) -> (ok: bool)
    ensures
        pure_post(
            values_view(old(stack)@),
            values_view(final(stack)@),
            sp_shape(values_view(old(stack)@)),
            ok,
        ),
{
    let described = match peek(stack, 0) {
        Some(v) => v.shape().repr(),
        None => {
            return false;
        },
    };
    drop_top(stack, 1);
    push_value(stack, described);
    proof {
        let s = values_view(old(stack)@);
        assert(s.take(s.len() - 1) =~= s.drop_last());
    }
    true
}

/// A fresh child machine holding exactly one value.
fn child_with(parent: &VM, v: Value) -> (r: VM)
    ensures
        r@ == vm_child_of(parent@, seq![value_view(v)]),
{
    let mut child = parent.new_child();
    let ghost vv: ValueView = value_view(v);
    push_value(&mut child.stack, v);
    proof {
        assert(child@.stack =~= seq![vv]);
        assert(child@ =~= vm_child_of(parent@, seq![vv]));
    }
    child
}

impl VM {
    /// A fresh top-level machine for one evaluation run.
    /// Walk the program from a cursor, executing every expression after
    /// the focus and recording the machine state at every shape passed.
    /// The step budget bounds the run; a run that exhausts it reports
    /// failure, and the machine, trace and budget then hold whatever the
    /// partial run produced.
    pub fn eval_cursor(
        &mut self,
        trace: &mut Trace,
        files: &FileStore,
        cursor: Cursor,
        fuel: &mut usize,
    ) -> (ok: bool)
        ensures
            match eval_cursor_spec(
                *old(fuel) as nat,
                old(self)@,
                old(trace)@,
                cursor_view(cursor),
                files@,
            ) {
                Some(out) => ok && final(self)@ == out.0 && final(trace)@ == out.1
                    && *final(fuel) as nat == out.2,
                None => !ok,
            },
            *final(fuel) <= *old(fuel),
        decreases *old(fuel), 3nat,
    {
        let shape = cursor.shape();
        trace.add_snapshot(shape, self);
        self.eval_steps(trace, files, cursor, fuel)
    }

    /// Step through the expressions after the cursor.
    fn eval_steps(
        &mut self,
        trace: &mut Trace,
        files: &FileStore,
        cursor: Cursor,
        fuel: &mut usize,
    ) -> (ok: bool)
        ensures
            match eval_steps_spec(
                *old(fuel) as nat,
                old(self)@,
                old(trace)@,
                cursor_view(cursor),
                files@,
            ) {
                Some(out) => ok && final(self)@ == out.0 && final(trace)@ == out.1
                    && *final(fuel) as nat == out.2,
                None => !ok,
            },
            *final(fuel) <= *old(fuel),
        decreases *old(fuel), 2nat,
    {
        let ghost c0: CursorView = cursor_view(cursor);
        let ghost vm0: VMView = self@;
        let ghost t0: Seq<(ShapeView, Seq<VMView>)> = trace@;
        let mut cursor = cursor;
        let e_opt = match cursor.next_expr() {
            Some(e) => Some(e.duplicate()),
            None => None,
        };
        match e_opt {
            None => {
                proof {
                    assert(next_expr_of(c0) is None);
                }
                true
            },
            Some(e) => {
                let ghost ev: ExprView = expr_view(e);
                proof {
                    assert(next_expr_of(c0) == Some(ev));
                }
                if *fuel == 0 {
                    return false;
                }
                *fuel = *fuel - 1;
                cursor.move_right();
                proof {
                    assert(cursor_view(cursor) == moved_right(c0));
                }
                let ok1 = match e {
                    Expr::Ident(name) => self.eval_prim(trace, files, &name, fuel),
                    Expr::StrLit(text) => {
                        self.push(Value::new_str_chars(text));
                        true
                    },
                    Expr::NumLit(n) => {
                        self.push(Value::new_i64(n));
                        true
                    },
                    Expr::Quote(_) => {
                        let mut qc = cursor.duplicate();
                        qc.move_up();
                        qc.move_very_left();
                        self.push(Value::new_quote(qc));
                        true
                    },
                };
                proof {
                    if ok1 {
                        assert(step_expr_spec(
                            (*old(fuel) - 1) as nat,
                            ev,
                            vm0,
                            t0,
                            moved_right(c0),
                            files@,
                        ) matches Some(mid) && mid.0 == self@ && mid.1 == trace@ && mid.2
                            == *fuel as nat);
                    } else {
                        assert(step_expr_spec(
                            (*old(fuel) - 1) as nat,
                            ev,
                            vm0,
                            t0,
                            moved_right(c0),
                            files@,
                        ) is None);
                    }
                }
                if !ok1 {
                    return false;
                }
                proof {
                    lemma_fuel_cap(*fuel as nat, (*old(fuel) - 1) as nat);
                }
                let shape = cursor.shape();
                trace.add_snapshot(shape, self);
                self.eval_steps(trace, files, cursor, fuel)
            },
        }
    }

    /// Dispatch one identifier against the machine.
    fn eval_prim(
        &mut self,
        trace: &mut Trace,
        files: &FileStore,
        name: &Vec<char>,
        fuel: &mut usize,
    ) -> (ok: bool)
        ensures
            match eval_prim_spec(*old(fuel) as nat, name@, old(self)@, old(trace)@, files@) {
                Some(out) => ok && final(self)@ == out.0 && final(trace)@ == out.1
                    && *final(fuel) as nat == out.2,
                None => !ok,
            },
            *final(fuel) <= *old(fuel),
        decreases *old(fuel), 1nat,
    {
        if crate::text::text_is(name, "collect") {
            self.run_collect(trace, files, fuel)
        } else if crate::text::text_is(name, "map") {
            self.run_map(trace, files, fuel)
        } else if crate::text::text_is(name, "under") {
            self.run_under(trace, files, fuel)
        } else {
            let okp = eval_pure(name, &mut self.stack, files);
            proof {
                assert(self@ =~= vm_with_stack(old(self)@, values_view(self.stack@)));
            }
            if okp {
                true
            } else {
                self.push(Value::new_poison());
                true
            }
        }
    }

    /// Evaluate the popped quote in a fresh child machine and push its
    /// final stack as a list.
    fn run_collect(&mut self, trace: &mut Trace, files: &FileStore, fuel: &mut usize) -> (ok:
        bool)
        ensures
            match collect_step(*old(fuel) as nat, old(self)@, old(trace)@, files@) {
                Some(out) => ok && final(self)@ == out.0 && final(trace)@ == out.1
                    && *final(fuel) as nat == out.2,
                None => !ok,
            },
            *final(fuel) <= *old(fuel),
        decreases *old(fuel), 0nat,
    {
        proof {
            lemma_values_view(self.stack@);
        }
        let qc_opt = match peek(&self.stack, 0) {
            Some(v) => match v.as_quote() {
                Some(c) => Some(c.duplicate()),
                None => None,
            },
            None => None,
        };
        match qc_opt {
            None => {
                self.push(Value::new_poison());
                true
            },
            Some(qc) => {
                self.drop_one();
                if *fuel == 0 {
                    return false;
                }
                *fuel = *fuel - 1;
                let mut child = self.new_child();
                let ok2 = child.eval_cursor(trace, files, qc, fuel);
                if !ok2 {
                    return false;
                }
                let ghost cs: Seq<ValueView> = child@.stack;
                let list = Value::new_list(child.stack);
                proof {
                    assert(value_view(list) == list_item(cs));
                }
                self.push(list);
                true
            },
        }
    }

    /// Run the popped quote over each element of the popped list and push
    /// the concatenated results.
    #[verifier::rlimit(80)]
    fn run_map(&mut self, trace: &mut Trace, files: &FileStore, fuel: &mut usize) -> (ok: bool)
        ensures
            match map_step(*old(fuel) as nat, old(self)@, old(trace)@, files@) {
                Some(out) => ok && final(self)@ == out.0 && final(trace)@ == out.1
                    && *final(fuel) as nat == out.2,
                None => !ok,
            },
            *final(fuel) <= *old(fuel),
        decreases *old(fuel), 0nat,
    {
        proof {
            lemma_values_view(self.stack@);
        }
        let qc_opt = match peek(&self.stack, 0) {
            Some(v) => match v.as_quote() {
                Some(c) => Some(c.duplicate()),
                None => None,
            },
            None => None,
        };
        let items_opt = match peek(&self.stack, 1) {
            Some(v) => v.as_list(),
            None => None,
        };
        match (qc_opt, items_opt) {
            (Some(qc), Some(items)) => {
                self.drop_two();
                if *fuel == 0 {
                    return false;
                }
                *fuel = *fuel - 1;
                let ghost f1: nat = *fuel as nat;
                let ghost pv: VMView = self@;
                let ghost t1: Seq<(ShapeView, Seq<VMView>)> = trace@;
                let ghost qcv: CursorView = cursor_view(qc);
                proof {
                    lemma_values_view(items@);
                }
                let ghost iv: Seq<ValueView> = values_view(items@);
                let n = items.len();
                let mut results: Vec<Value> = Vec::new();
                let mut i: usize = 0;
                proof {
                    assert(iv.skip(0) =~= iv);
                    lemma_values_view(results@);
                    assert(values_view(results@) =~= Seq::<ValueView>::empty());
                }
                while i < n
                    invariant
                        n == items@.len(),
                        iv == values_view(items@),
                        iv.len() == n,
                        forall|j: int| 0 <= j < n ==> iv[j] == value_view(items@[j]),
                        i <= n,
                        self@ == pv,
                        qcv == cursor_view(qc),
                        t1 == old(trace)@,
                        f1 == *old(fuel) - 1,
                        old(self)@.stack.len() >= 2,
                        as_quote_v(stk_at(old(self)@.stack, 0)) == Some(qcv),
                        as_list_v(stk_at(old(self)@.stack, 1)) == Some(iv),
                        pv == vm_with_stack(
                            old(self)@,
                            old(self)@.stack.take(old(self)@.stack.len() - 2),
                        ),
                        f1 < *old(fuel),
                        *fuel <= f1,
                        match map_run_spec(f1, iv, pv, qcv, t1, files@) {
                            Some(out) => map_run_spec(
                                *fuel as nat,
                                iv.skip(i as int),
                                pv,
                                qcv,
                                trace@,
                                files@,
                            ) matches Some(o2) && out.0 == values_view(results@) + o2.0 && out.1
                                == o2.1 && out.2 == o2.2,
                            None => map_run_spec(
                                *fuel as nat,
                                iv.skip(i as int),
                                pv,
                                qcv,
                                trace@,
                                files@,
                            ) is None,
                        },
                    decreases n - i,
                {
                    proof {
                        assert(iv.skip(i as int)[0] == iv[i as int]);
                        assert(iv.skip(i as int).drop_first() =~= iv.skip(i + 1));
                        lemma_map_run_unfold(*fuel as nat, iv.skip(i as int), pv, qcv, trace@, files@);
                    }
                    let v = items[i].duplicate();
                    let child0 = child_with(self, v);
                    let mut child = child0;
                    let ghost fuel_b: nat = *fuel as nat;
                    let ghost t_pre: Seq<(ShapeView, Seq<VMView>)> = trace@;
                    let okc = child.eval_cursor(trace, files, qc.duplicate(), fuel);
                    if !okc {
                        proof {
                            assert(map_run_spec(fuel_b, iv.skip(i as int), pv, qcv, t_pre, files@)
                                is None);
                        }
                        return false;
                    }
                    let ghost cs: Seq<ValueView> = child@.stack;
                    let ghost r0: Seq<Value> = results@;
                    let ghost ch0: Seq<Value> = child.stack@;
                    results.append(&mut child.stack);
                    proof {
                        assert(results@ =~= r0 + ch0);
                        lemma_values_view(r0);
                        lemma_values_view(ch0);
                        lemma_values_view(results@);
                        assert forall|j: int| 0 <= j < r0.len() + ch0.len() implies values_view(
                            results@,
                        )[j] == (values_view(r0) + values_view(ch0))[j] by {
                            if j < r0.len() {
                                assert(results@[j] == r0[j]);
                            } else {
                                assert(results@[j] == ch0[j - r0.len()]);
                            }
                        }
                        assert(values_view(results@) =~= values_view(r0) + values_view(ch0));
                        assert(values_view(ch0) == cs);
                        lemma_fuel_cap(*fuel as nat, fuel_b);
                    }
                    i += 1;
                }
                proof {
                    assert(iv.skip(n as int).len() == 0);
                    lemma_map_run_empty(*fuel as nat, iv.skip(n as int), pv, qcv, trace@, files@);
                }
                let ghost rs: Seq<ValueView> = values_view(results@);
                let list = Value::new_list(results);
                proof {
                    assert(value_view(list) == list_item(rs));
                    assert(rs + Seq::<ValueView>::empty() =~= rs);
                }
                self.push(list);
                true
            },
            _ => {
                self.push(Value::new_poison());
                true
            },
        }
    }

    /// Run the popped quote with the top values set aside, then put them
    /// back above its result.
    #[verifier::rlimit(80)]
    fn run_under(&mut self, trace: &mut Trace, files: &FileStore, fuel: &mut usize) -> (ok: bool)
        ensures
            match under_step(*old(fuel) as nat, old(self)@, old(trace)@, files@) {
                Some(out) => ok && final(self)@ == out.0 && final(trace)@ == out.1
                    && *final(fuel) as nat == out.2,
                None => !ok,
            },
            *final(fuel) <= *old(fuel),
        decreases *old(fuel), 0nat,
    {
        proof {
            lemma_values_view(self.stack@);
        }
        let n_opt = match peek(&self.stack, 0) {
            Some(v) => v.as_i64(),
            None => None,
        };
        let qc_opt = match peek(&self.stack, 1) {
            Some(v) => match v.as_quote() {
                Some(c) => Some(c.duplicate()),
                None => None,
            },
            None => None,
        };
        match (n_opt, qc_opt) {
            (Some(n), Some(qc)) => {
                let len = self.stack.len();
                if !(0 <= n && (n as u64) <= ((len - 2) as u64)) {
                    proof {
                        let s = old(self)@.stack;
                        if 0 <= n {
                            assert(!(n <= s.len() - 2));
                        }
                    }
                    self.push(Value::new_poison());
                    return true;
                }
                self.drop_two();
                if *fuel == 0 {
                    return false;
                }
                *fuel = *fuel - 1;
                proof {
                    lemma_values_view(self.stack@);
                }
                let idx = self.stack.len() - (n as usize);
                let ghost s2v: Seq<Value> = self.stack@;
                let mut temp = self.stack.split_off(idx);
                proof {
                    lemma_values_view(s2v);
                    lemma_values_view(self.stack@);
                    lemma_values_view(temp@);
                    assert(self.stack@ == s2v.subrange(0, idx as int));
                    assert(temp@ == s2v.subrange(idx as int, s2v.len() as int));
                    assert forall|j: int| 0 <= j < idx implies values_view(self.stack@)[j]
                        == values_view(s2v).take(idx as int)[j] by {
                        assert(self.stack@[j] == s2v[j]);
                    }
                    assert(values_view(self.stack@) =~= values_view(s2v).take(idx as int));
                    assert forall|j: int| 0 <= j < s2v.len() - idx implies values_view(temp@)[j]
                        == values_view(s2v).skip(idx as int)[j] by {
                        assert(temp@[j] == s2v[idx + j]);
                    }
                    assert(values_view(temp@) =~= values_view(s2v).skip(idx as int));
                    assert(self@ =~= vm_with_stack(old(self)@, values_view(self.stack@)));
                }
                let ghost tempv: Seq<ValueView> = values_view(temp@);
                let ok2 = self.eval_cursor(trace, files, qc, fuel);
                if !ok2 {
                    return false;
                }
                let ghost s3v: Seq<Value> = self.stack@;
                let ghost tempraw: Seq<Value> = temp@;
                self.stack.append(&mut temp);
                proof {
                    assert(self.stack@ =~= s3v + tempraw);
                    lemma_values_view(s3v);
                    lemma_values_view(self.stack@);
                    assert forall|j: int| 0 <= j < s3v.len() + tempv.len() implies values_view(
                        self.stack@,
                    )[j] == (values_view(s3v) + tempv)[j] by {
                        if j < s3v.len() {
                            assert(self.stack@[j] == s3v[j]);
                        } else {
                            assert(self.stack@[j] == tempraw[j - s3v.len()]);
                        }
                    }
                    assert(values_view(self.stack@) =~= values_view(s3v) + tempv);
                }
                true
            },
            _ => {
                self.push(Value::new_poison());
                true
            },
        }
    }
}

} // verus!
