//! Running an instruction list: the values it is run with, the sink it
//! writes to, and what is written.

use crate::escape::{escape, escaped};
use crate::instruction::{Instruction, InstructionView};
use crate::tags::text_eq;
use crate::token::views;
use vstd::prelude::*;
use vstd::utf8::encode_utf8;

verus! {

/// The value of an expression at run time.
#[derive(Debug, PartialEq, Eq)]
pub enum Value {
    /// Text, for the directives that write text.
    Text(String),
    /// Bytes, for the directive that writes bytes.
    Bytes(Vec<u8>),
    /// A child, for the directives that invoke one: a compiled template with
    /// the values it is run with.
    Child(Fragment),
}

/// An expression and its value.
#[derive(Debug, PartialEq, Eq)]
pub struct Binding {
    pub expr: String,
    pub value: Value,
}

/// A compiled template together with the values of its expressions.
#[derive(Debug, PartialEq, Eq)]
pub struct Fragment {
    pub instructions: Vec<Instruction>,
    pub values: Vec<Binding>,
}

/// A value as a mathematical value.
pub enum ValueView {
    Text(Seq<char>),
    Bytes(Seq<u8>),
    Child(FragmentView),
}

/// A binding as a mathematical value.
pub struct BindingView {
    pub expr: Seq<char>,
    pub value: ValueView,
}

/// A fragment as a mathematical value.
pub struct FragmentView {
    pub instructions: Seq<InstructionView>,
    pub values: Seq<BindingView>,
}

/// The view of a value; a child is viewed through its own values.
pub open spec fn value_view(v: Value) -> ValueView
    decreases v,
{
    match v {
        Value::Text(s) => ValueView::Text(s@),
        Value::Bytes(b) => ValueView::Bytes(b@),
        Value::Child(f) => ValueView::Child(
            FragmentView {
                instructions: views(f.instructions@),
                values: bindings_view(f.values@),
            },
        ),
    }
}

/// The views of a sequence of bindings.
pub open spec fn bindings_view(bs: Seq<Binding>) -> Seq<BindingView>
    decreases bs,
{
    Seq::new(
        bs.len(),
        |i: int|
            if 0 <= i < bs.len() {
                BindingView { expr: bs[i].expr@, value: value_view(bs[i].value) }
            } else {
                arbitrary()
            },
    )
}

impl View for Value {
    type V = ValueView;

    open spec fn view(&self) -> ValueView {
        value_view(*self)
    }
}

impl View for Binding {
    type V = BindingView;

    open spec fn view(&self) -> BindingView {
        BindingView { expr: self.expr@, value: self.value@ }
    }
}

impl View for Fragment {
    type V = FragmentView;

    open spec fn view(&self) -> FragmentView {
        FragmentView { instructions: views(self.instructions@), values: views(self.values@) }
    }
}

/// The two ways of viewing a sequence of bindings agree.
pub proof fn lemma_bindings_view(bs: Seq<Binding>)
    ensures
        views(bs) == bindings_view(bs),
{
    assert(views(bs) =~= bindings_view(bs));
}

/// The index of the first binding of `expr` at or after `from`, or -1 when
/// there is none.
pub open spec fn position(values: Seq<BindingView>, expr: Seq<char>, from: int) -> int
    decreases values.len() - from,
{
    if from < 0 || from >= values.len() {
        -1
    } else if values[from].expr == expr {
        from
    } else {
        position(values, expr, from + 1)
    }
}

/// The value bound to `expr`: that of its first binding.
pub open spec fn found(values: Seq<BindingView>, expr: Seq<char>) -> Option<ValueView> {
    let i = position(values, expr, 0);
    if 0 <= i < values.len() {
        Some(values[i].value)
    } else {
        None
    }
}

/// `text` in UTF-8 between two double quotes.
pub open spec fn quoted(text: Seq<char>) -> Seq<u8> {
    seq![0x22u8] + encode_utf8(text) + seq![0x22u8]
}

/// The bytes that one instruction writes when run with `values`.
///
/// A literal writes its bytes. An escaped write writes the text of its
/// expression, escaped, in UTF-8; a quoted write writes it unescaped between
/// double quotes; a raw write writes the bytes of its expression. A child
/// invocation writes what the child's own list writes with the child's own
/// values. An instruction whose expression has no value of the kind it needs
/// writes nothing.
pub open spec fn output_of(ins: InstructionView, values: Seq<BindingView>) -> Seq<u8>
    decreases values, 0nat,
{
    match ins {
        InstructionView::WriteLiteral(bytes) => bytes,
        InstructionView::WriteEscaped(e) => match found(values, e) {
            Some(ValueView::Text(t)) => encode_utf8(escaped(t)),
            _ => Seq::empty(),
        },
        InstructionView::WriteQuoted(e) => match found(values, e) {
            Some(ValueView::Text(t)) => quoted(t),
            _ => Seq::empty(),
        },
        InstructionView::WriteRawBytes(e) => match found(values, e) {
            Some(ValueView::Bytes(b)) => b,
            _ => Seq::empty(),
        },
        InstructionView::InvokeChild(e) => {
            let i = position(values, e, 0);
            if 0 <= i < values.len() {
                match values[i].value {
                    ValueView::Child(f) => rendered(f.instructions, f.values),
                    _ => Seq::empty(),
                }
            } else {
                Seq::empty()
            }
        },
    }
}

/// The bytes that an instruction list writes when run with `values`: what its
/// instructions write, one after the other.
pub open spec fn rendered(list: Seq<InstructionView>, values: Seq<BindingView>) -> Seq<u8>
    decreases values, list.len() + 1,
{
    if list.len() == 0 {
        Seq::empty()
    } else {
        rendered(list.drop_last(), values) + output_of(list.last(), values)
    }
}

/// The bytes of a sequence of writes, one after the other.
pub open spec fn flat(chunks: Seq<Seq<u8>>) -> Seq<u8>
    decreases chunks.len(),
{
    if chunks.len() == 0 {
        Seq::empty()
    } else {
        flat(chunks.drop_last()) + chunks.last()
    }
}

/// The writes that one instruction makes when run with `values`, in order.
///
/// A literal, an escaped write and a raw write make one write each. A quoted
/// write makes three: the opening quote, the text, the closing quote. A child
/// invocation makes the writes of the child's own list. An instruction whose
/// expression has no value of the kind it needs makes none.
pub open spec fn writes_of_one(ins: InstructionView, values: Seq<BindingView>) -> Seq<Seq<u8>>
    decreases values, 0nat,
{
    match ins {
        InstructionView::WriteLiteral(bytes) => seq![bytes],
        InstructionView::WriteEscaped(e) => match found(values, e) {
            Some(ValueView::Text(t)) => seq![encode_utf8(escaped(t))],
            _ => Seq::empty(),
        },
        InstructionView::WriteQuoted(e) => match found(values, e) {
            Some(ValueView::Text(t)) => seq![seq![0x22u8], encode_utf8(t), seq![0x22u8]],
            _ => Seq::empty(),
        },
        InstructionView::WriteRawBytes(e) => match found(values, e) {
            Some(ValueView::Bytes(b)) => seq![b],
            _ => Seq::empty(),
        },
        InstructionView::InvokeChild(e) => {
            let i = position(values, e, 0);
            if 0 <= i < values.len() {
                match values[i].value {
                    ValueView::Child(f) => writes_of(f.instructions, f.values),
                    _ => Seq::empty(),
                }
            } else {
                Seq::empty()
            }
        },
    }
}

/// The writes that an instruction list makes when run with `values`: those of
/// its instructions, one after the other.
pub open spec fn writes_of(list: Seq<InstructionView>, values: Seq<BindingView>) -> Seq<Seq<u8>>
    decreases values, list.len() + 1,
{
    if list.len() == 0 {
        Seq::empty()
    } else {
        writes_of(list.drop_last(), values) + writes_of_one(list.last(), values)
    }
}

/// Why a sink did not take a write.
#[derive(Clone, Copy, Debug, PartialEq, Eq, Structural)]
pub enum SinkError {
    /// The sink has no room for the bytes.
    Full,
}

/// A destination for output bytes.
pub trait Sink {
    /// The bytes written to this sink so far.
    spec fn written(&self) -> Seq<u8>;

    /// Whether this sink, when it holds `held`, takes a write of `bytes`.
    spec fn takes(&self, held: Seq<u8>, bytes: Seq<u8>) -> bool;

    /// The part of `bytes` that this sink writes all the same when it holds
    /// `held` and refuses the write.
    spec fn kept(&self, held: Seq<u8>, bytes: Seq<u8>) -> Seq<u8>;

    /// Writes `bytes`. The write succeeds exactly when the sink takes it, and
    /// then all of `bytes` is written after what was there. Of a write that
    /// is refused the sink writes the first part that it keeps, and nothing is
    /// taken back. What the sink takes and keeps does not change with a write.
    fn write_all(&mut self, bytes: &[u8]) -> (r: Result<(), SinkError>)
        ensures
            r is Ok <==> old(self).takes(old(self).written(), bytes@),
            r is Ok ==> final(self).written() == old(self).written() + bytes@,
            r is Err ==> final(self).written() == old(self).written() + old(self).kept(
                old(self).written(),
                bytes@,
            ),
            r is Err ==> old(self).kept(old(self).written(), bytes@).is_prefix_of(bytes@),
            forall|held: Seq<u8>, b: Seq<u8>|
                #[trigger] final(self).takes(held, b) == old(self).takes(held, b),
            forall|held: Seq<u8>, b: Seq<u8>|
                #[trigger] final(self).kept(held, b) == old(self).kept(held, b),
    ;
}

/// How many of `chunks`, written one after the other to a sink that holds
/// `held`, the sink takes before it refuses one: all of them if it refuses
/// none.
pub open spec fn taken<S: Sink>(sink: S, held: Seq<u8>, chunks: Seq<Seq<u8>>) -> nat
    decreases chunks.len(),
{
    if chunks.len() == 0 {
        0
    } else if sink.takes(held, chunks.first()) {
        1 + taken(sink, held + chunks.first(), chunks.drop_first())
    } else {
        0
    }
}

/// Whether two states of a sink take and keep the same writes.
pub open spec fn same_sink<S: Sink>(one: S, other: S) -> bool {
    &&& forall|held: Seq<u8>, b: Seq<u8>| #[trigger] other.takes(held, b) == one.takes(held, b)
    &&& forall|held: Seq<u8>, b: Seq<u8>| #[trigger] other.kept(held, b) == one.kept(held, b)
}

/// What a run that makes the writes `chunks`, one after the other, does to a
/// sink, from `before` to `after`, with the result `r`.
///
/// The run succeeds exactly when the sink takes every write, and then all the
/// bytes are written after what was there. A run that fails ends at the first
/// write that the sink refuses: the writes before it are written in full, of
/// the refused one the first part that the sink keeps, and nothing after it.
/// Nothing is taken back. What the sink takes and keeps does not change.
pub open spec fn ran<S: Sink>(
    before: S,
    after: S,
    chunks: Seq<Seq<u8>>,
    r: Result<(), SinkError>,
) -> bool {
    let n = taken(before, before.written(), chunks) as int;
    let held = before.written() + flat(chunks.take(n));
    &&& r is Ok <==> n == chunks.len()
    &&& r is Ok ==> after.written() == before.written() + flat(chunks)
    &&& r is Err ==> after.written() == held + before.kept(held, chunks[n])
    &&& r is Err ==> before.kept(held, chunks[n]).is_prefix_of(chunks[n])
    &&& same_sink(before, after)
}

/// Whether a run of `list` that started with `start` in the sink and left
/// `end` in it stopped inside the instruction at `k`: everything before that
/// instruction is written, and nothing after it.
pub open spec fn stopped_in(
    start: Seq<u8>,
    end: Seq<u8>,
    list: Seq<InstructionView>,
    values: Seq<BindingView>,
    k: int,
) -> bool {
    &&& 0 <= k < list.len()
    &&& (start + rendered(list.take(k), values)).is_prefix_of(end)
    &&& end.is_prefix_of(start + rendered(list.take(k + 1), values))
}

/// A sink that keeps everything in memory and takes every write.
#[derive(Clone, Debug, PartialEq, Eq)]
pub struct Buffer {
    pub bytes: Vec<u8>,
}

impl Buffer {
    /// An empty buffer.
    pub fn new() -> (b: Buffer)
        ensures
            b.bytes@ == Seq::<u8>::empty(),
    {
        Buffer { bytes: Vec::new() }
    }
}

impl Sink for Buffer {
    open spec fn written(&self) -> Seq<u8> {
        self.bytes@
    }

    open spec fn takes(&self, held: Seq<u8>, bytes: Seq<u8>) -> bool {
        true
    }

    open spec fn kept(&self, held: Seq<u8>, bytes: Seq<u8>) -> Seq<u8> {
        Seq::empty()
    }

    fn write_all(&mut self, bytes: &[u8]) -> (r: Result<(), SinkError>) {
        self.bytes.extend_from_slice(bytes);
        Ok(())
    }
}

/// A sink that keeps at most `limit` bytes in memory. A write that does not
/// fit is refused as a whole.
#[derive(Clone, Debug, PartialEq, Eq)]
pub struct Bounded {
    pub bytes: Vec<u8>,
    pub limit: usize,
}

impl Bounded {
    /// An empty sink with room for `limit` bytes.
    pub fn new(limit: usize) -> (b: Bounded)
        ensures
            b.bytes@ == Seq::<u8>::empty(),
            b.limit == limit,
    {
        Bounded { bytes: Vec::new(), limit }
    }

    /// Whether a write of `n` bytes fits.
    pub open spec fn fits(&self, n: nat) -> bool {
        self.bytes@.len() + n <= self.limit
    }

    /// Two states of a bounded sink that take the same writes have the same
    /// limit: a run leaves the limit as it was.
    pub proof fn lemma_same_limit(one: Bounded, other: Bounded)
        requires
            same_sink(one, other),
        ensures
            other.limit == one.limit,
    {
        let none = Seq::<u8>::empty();
        let fill_one = Seq::new(one.limit as nat, |i: int| 0u8);
        let fill_other = Seq::new(other.limit as nat, |i: int| 0u8);
        assert(one.takes(none, fill_one));
        assert(other.takes(none, fill_one));
        assert(other.takes(none, fill_other));
        assert(one.takes(none, fill_other));
    }

    /// Writes `bytes` if they fit, and nothing otherwise.
    pub fn put(&mut self, bytes: &[u8]) -> (r: Result<(), SinkError>)
        ensures
            final(self).limit == old(self).limit,
            old(self).fits(bytes@.len()) ==> r is Ok,
            r is Ok ==> final(self).bytes@ == old(self).bytes@ + bytes@,
            !old(self).fits(bytes@.len()) ==> r == Err::<(), SinkError>(SinkError::Full),
            r is Err ==> final(self).bytes@ == old(self).bytes@,
    {
        if self.bytes.len() <= self.limit && bytes.len() <= self.limit - self.bytes.len() {
            self.bytes.extend_from_slice(bytes);
            Ok(())
        } else {
            Err(SinkError::Full)
        }
    }
}

impl Sink for Bounded {
    open spec fn written(&self) -> Seq<u8> {
        self.bytes@
    }

    open spec fn takes(&self, held: Seq<u8>, bytes: Seq<u8>) -> bool {
        held.len() + bytes.len() <= self.limit
    }

    open spec fn kept(&self, held: Seq<u8>, bytes: Seq<u8>) -> Seq<u8> {
        Seq::empty()
    }

    /// Takes a write exactly when it fits: all of `bytes` is then written
    /// after what was there. A write that does not fit is refused with
    /// `Full`, and nothing of it is written. The limit stays.
    fn write_all(&mut self, bytes: &[u8]) -> (r: Result<(), SinkError>)
        ensures
            final(self).limit == old(self).limit,
            old(self).fits(bytes@.len()) ==> r is Ok,
            r is Ok ==> final(self).bytes@ == old(self).bytes@ + bytes@,
            !old(self).fits(bytes@.len()) ==> r == Err::<(), SinkError>(SinkError::Full),
            r is Err ==> final(self).bytes@ == old(self).bytes@,
    {
        self.put(bytes)
    }
}

/// Finds the first binding of `expr`.
pub fn lookup(values: &Vec<Binding>, expr: &str) -> (r: Option<usize>)
    ensures
        match r {
            Some(i) => i < values.len() && i == position(views(values@), expr@, 0),
            None => position(views(values@), expr@, 0) == -1,
        },
{
    let ghost vs = views(values@);
    let mut i: usize = 0;
    while i < values.len()
        invariant
            vs == views(values@),
            0 <= i <= values.len(),
            position(vs, expr@, 0) == position(vs, expr@, i as int),
        decreases values.len() - i,
    {
        if text_eq(values[i].expr.as_str(), expr) {
            return Some(i);
        }
        i += 1;
    }
    None
}

/// Instructions run one after the other: two lists put together write what
/// the first writes, then what the second writes.
pub proof fn lemma_rendered_concat(
    a: Seq<InstructionView>,
    b: Seq<InstructionView>,
    values: Seq<BindingView>,
)
    ensures
        rendered(a + b, values) == rendered(a, values) + rendered(b, values),
    decreases b.len(),
{
    if b.len() == 0 {
        assert(a + b =~= a);
        assert(rendered(a, values) + rendered(b, values) =~= rendered(a, values));
    } else {
        lemma_rendered_concat(a, b.drop_last(), values);
        assert((a + b).drop_last() =~= a + b.drop_last());
        assert((a + b).last() == b.last());
        assert((rendered(a, values) + rendered(b.drop_last(), values)) + output_of(
            b.last(),
            values,
        ) =~= rendered(a, values) + (rendered(b.drop_last(), values) + output_of(
            b.last(),
            values,
        )));
    }
}

/// Two lists put together make the writes of the first, then those of the
/// second.
pub proof fn lemma_writes_concat(
    a: Seq<InstructionView>,
    b: Seq<InstructionView>,
    values: Seq<BindingView>,
)
    ensures
        writes_of(a + b, values) == writes_of(a, values) + writes_of(b, values),
    decreases b.len(),
{
    if b.len() == 0 {
        assert(a + b =~= a);
        assert(writes_of(a, values) + writes_of(b, values) =~= writes_of(a, values));
    } else {
        lemma_writes_concat(a, b.drop_last(), values);
        assert((a + b).drop_last() =~= a + b.drop_last());
        assert((a + b).last() == b.last());
        assert((writes_of(a, values) + writes_of(b.drop_last(), values)) + writes_of_one(
            b.last(),
            values,
        ) =~= writes_of(a, values) + (writes_of(b.drop_last(), values) + writes_of_one(
            b.last(),
            values,
        )));
    }
}

/// The bytes of two sequences of writes put together are the bytes of the
/// first, then those of the second.
pub proof fn lemma_flat_concat(a: Seq<Seq<u8>>, b: Seq<Seq<u8>>)
    ensures
        flat(a + b) == flat(a) + flat(b),
    decreases b.len(),
{
    if b.len() == 0 {
        assert(a + b =~= a);
        assert(flat(a) + flat(b) =~= flat(a));
    } else {
        lemma_flat_concat(a, b.drop_last());
        assert((a + b).drop_last() =~= a + b.drop_last());
        assert((a + b).last() == b.last());
        assert((flat(a) + flat(b.drop_last())) + b.last() =~= flat(a) + (flat(b.drop_last())
            + b.last()));
    }
}

/// The bytes of a single write are its own.
pub proof fn lemma_flat_one(chunk: Seq<u8>)
    ensures
        flat(seq![chunk]) == chunk,
{
    let one = seq![chunk];
    let none = Seq::<Seq<u8>>::empty();
    assert(one.drop_last() =~= none);
    assert(flat(none) =~= Seq::<u8>::empty());
    assert(flat(one) == flat(one.drop_last()) + one.last());
    assert(flat(one) =~= chunk);
}

/// What a list writes is the bytes of its writes, one after the other.
pub proof fn lemma_rendered_is_flat(list: Seq<InstructionView>, values: Seq<BindingView>)
    ensures
        rendered(list, values) == flat(writes_of(list, values)),
    decreases values, list.len() + 1,
{
    if list.len() > 0 {
        lemma_rendered_is_flat(list.drop_last(), values);
        lemma_output_is_flat(list.last(), values);
        lemma_flat_concat(
            writes_of(list.drop_last(), values),
            writes_of_one(list.last(), values),
        );
    }
}

/// What an instruction writes is the bytes of its writes, one after the
/// other.
pub proof fn lemma_output_is_flat(ins: InstructionView, values: Seq<BindingView>)
    ensures
        output_of(ins, values) == flat(writes_of_one(ins, values)),
    decreases values, 0nat,
{
    let w = writes_of_one(ins, values);
    match ins {
        InstructionView::InvokeChild(e) => {
            let i = position(values, e, 0);
            if 0 <= i < values.len() {
                match values[i].value {
                    ValueView::Child(f) => {
                        lemma_rendered_is_flat(f.instructions, f.values);
                    },
                    _ => {},
                }
            }
        },
        InstructionView::WriteQuoted(e) => {
            match found(values, e) {
                Some(ValueView::Text(t)) => {
                    let q = seq![0x22u8];
                    let b = encode_utf8(t);
                    lemma_flat_one(q);
                    assert(w.drop_last() =~= seq![q, b]);
                    assert(seq![q, b].drop_last() =~= seq![q]);
                    assert(flat(seq![q, b]) =~= q + b);
                    assert(flat(w) =~= q + b + q);
                },
                _ => {},
            }
        },
        _ => {
            if w.len() == 1 {
                lemma_flat_one(w[0]);
                assert(w =~= seq![w[0]]);
            }
        },
    }
}

/// The output of the first `k` instructions of a list starts the output of
/// the whole list.
pub proof fn lemma_rendered_prefix(list: Seq<InstructionView>, values: Seq<BindingView>, k: int)
    requires
        0 <= k <= list.len(),
    ensures
        rendered(list.take(k), values).is_prefix_of(rendered(list, values)),
    decreases list.len() - k,
{
    if k == list.len() {
        assert(list.take(k) =~= list);
    } else {
        lemma_rendered_prefix(list, values, k + 1);
        assert(list.take(k + 1).drop_last() =~= list.take(k));
    }
}

proof fn lemma_flat_first(chunks: Seq<Seq<u8>>)
    requires
        chunks.len() > 0,
    ensures
        flat(chunks) == chunks.first() + flat(chunks.drop_first()),
{
    let one = seq![chunks.first()];
    assert(one + chunks.drop_first() =~= chunks);
    lemma_flat_concat(one, chunks.drop_first());
    lemma_flat_one(chunks.first());
}

proof fn lemma_flat_prefix(chunks: Seq<Seq<u8>>, k: int)
    requires
        0 <= k <= chunks.len(),
    ensures
        flat(chunks.take(k)).is_prefix_of(flat(chunks)),
{
    assert(chunks.take(k) + chunks.skip(k) =~= chunks);
    lemma_flat_concat(chunks.take(k), chunks.skip(k));
}

proof fn lemma_taken_bound<S: Sink>(sink: S, held: Seq<u8>, chunks: Seq<Seq<u8>>)
    ensures
        taken(sink, held, chunks) <= chunks.len(),
    decreases chunks.len(),
{
    if chunks.len() > 0 && sink.takes(held, chunks.first()) {
        lemma_taken_bound(sink, held + chunks.first(), chunks.drop_first());
    }
}

proof fn lemma_taken_same<S: Sink>(one: S, other: S, held: Seq<u8>, chunks: Seq<Seq<u8>>)
    requires
        same_sink(one, other),
    ensures
        taken(other, held, chunks) == taken(one, held, chunks),
    decreases chunks.len(),
{
    if chunks.len() > 0 {
        assert(other.takes(held, chunks.first()) == one.takes(held, chunks.first()));
        if one.takes(held, chunks.first()) {
            lemma_taken_same(one, other, held + chunks.first(), chunks.drop_first());
        }
    }
}

proof fn lemma_taken_concat<S: Sink>(sink: S, held: Seq<u8>, a: Seq<Seq<u8>>, b: Seq<Seq<u8>>)
    ensures
        taken(sink, held, a) <= a.len(),
        taken(sink, held, a) == a.len() ==> taken(sink, held, a + b) == a.len() + taken(
            sink,
            held + flat(a),
            b,
        ),
        taken(sink, held, a) < a.len() ==> taken(sink, held, a + b) == taken(sink, held, a),
    decreases a.len(),
{
    lemma_taken_bound(sink, held, a);
    if a.len() == 0 {
        assert(a + b =~= b);
        assert(held + flat(a) =~= held);
    } else {
        assert((a + b).first() == a.first());
        assert((a + b).drop_first() =~= a.drop_first() + b);
        if sink.takes(held, a.first()) {
            lemma_taken_concat(sink, held + a.first(), a.drop_first(), b);
            lemma_flat_first(a);
            assert(held + a.first() + flat(a.drop_first()) =~= held + flat(a));
        }
    }
}

/// A run that fails has written a start of all its bytes, after what was
/// there.
pub proof fn lemma_ran_within<S: Sink>(
    before: S,
    after: S,
    chunks: Seq<Seq<u8>>,
    r: Result<(), SinkError>,
)
    requires
        ran(before, after, chunks, r),
        r is Err,
    ensures
        before.written().is_prefix_of(after.written()),
        after.written().is_prefix_of(before.written() + flat(chunks)),
{
    let n = taken(before, before.written(), chunks) as int;
    lemma_taken_bound(before, before.written(), chunks);
    lemma_flat_prefix(chunks, n + 1);
    let w = before.written();
    let part = before.kept(w + flat(chunks.take(n)), chunks[n]);
    let upto = flat(chunks.take(n + 1));
    assert(chunks.take(n + 1).drop_last() =~= chunks.take(n));
    assert(chunks.take(n + 1).last() == chunks[n]);
    assert(upto == flat(chunks.take(n)) + chunks[n]);
    assert(part =~= chunks[n].subrange(0, part.len() as int));
    assert(upto =~= flat(chunks).subrange(0, upto.len() as int));
    assert(w =~= after.written().subrange(0, w.len() as int));
    assert(after.written() =~= (w + upto).subrange(0, after.written().len() as int));
    assert(after.written() =~= (w + flat(chunks)).subrange(0, after.written().len() as int));
}

/// A run goes on after a part that succeeded: it then does what its second
/// part does.
pub proof fn lemma_ran_on<S: Sink>(
    start: S,
    mid: S,
    end: S,
    a: Seq<Seq<u8>>,
    b: Seq<Seq<u8>>,
    r: Result<(), SinkError>,
)
    requires
        ran(start, mid, a, Ok(())),
        ran(mid, end, b, r),
    ensures
        ran(start, end, a + b, r),
{
    let w = start.written();
    lemma_taken_concat(start, w, a, b);
    lemma_taken_same(start, mid, w + flat(a), b);
    lemma_taken_bound(mid, mid.written(), b);
    lemma_flat_concat(a, b);
    let n = taken(mid, mid.written(), b) as int;
    assert(w + flat(a + b) =~= w + flat(a) + flat(b));
    assert((a + b).take(a.len() + n) =~= a + b.take(n));
    lemma_flat_concat(a, b.take(n));
    assert(w + flat(a + b.take(n)) =~= w + flat(a) + flat(b.take(n)));
    if n < b.len() {
        assert((a + b)[a.len() + n] == b[n]);
        let held = mid.written() + flat(b.take(n));
        assert(start.kept(held, b[n]) == mid.kept(held, b[n]));
    }
    assert forall|held: Seq<u8>, x: Seq<u8>| #[trigger]
        end.takes(held, x) == start.takes(held, x) by {
        assert(end.takes(held, x) == mid.takes(held, x));
        assert(mid.takes(held, x) == start.takes(held, x));
    }
    assert forall|held: Seq<u8>, x: Seq<u8>| #[trigger]
        end.kept(held, x) == start.kept(held, x) by {
        assert(end.kept(held, x) == mid.kept(held, x));
        assert(mid.kept(held, x) == start.kept(held, x));
    }
}

/// A run ends with the part that failed: what would have come after it does
/// not happen.
pub proof fn lemma_ran_off<S: Sink>(start: S, end: S, a: Seq<Seq<u8>>, b: Seq<Seq<u8>>)
    requires
        ran(start, end, a, Err(SinkError::Full)),
    ensures
        ran(start, end, a + b, Err(SinkError::Full)),
{
    let w = start.written();
    lemma_taken_concat(start, w, a, b);
    let n = taken(start, w, a) as int;
    assert((a + b).take(n) =~= a.take(n));
    assert((a + b)[n] == a[n]);
}

fn write_chunk<S: Sink>(sink: &mut S, bytes: &[u8]) -> (r: Result<(), SinkError>)
    ensures
        ran(*old(sink), *final(sink), seq![bytes@], r),
{
    let ghost w = sink.written();
    let ghost one = seq![bytes@];
    proof {
        let none = Seq::<Seq<u8>>::empty();
        lemma_flat_one(bytes@);
        assert(one.drop_first() =~= none);
        assert(one.take(0) =~= none);
        assert(one.take(1) =~= one);
        assert(flat(none) =~= Seq::<u8>::empty());
        assert(w + flat(one.take(0)) =~= w);
        assert(taken(*sink, w + bytes@, none) == 0);
    }
    sink.write_all(bytes)
}

fn quote_mark() -> (q: Vec<u8>)
    ensures
        q@ == seq![0x22u8],
{
    let mut q: Vec<u8> = Vec::new();
    q.push(0x22u8);
    q
}

fn write_quoted<S: Sink>(sink: &mut S, text: &str) -> (r: Result<(), SinkError>)
    ensures
        ran(*old(sink), *final(sink), seq![seq![0x22u8], encode_utf8(text@), seq![0x22u8]], r),
{
    let ghost start = *sink;
    let ghost sq = seq![seq![0x22u8]];
    let ghost sb = seq![encode_utf8(text@)];
    let ghost all = seq![seq![0x22u8], encode_utf8(text@), seq![0x22u8]];
    proof {
        assert(sq + sb + sq =~= all);
        assert(sq + (sb + sq) =~= all);
    }
    let q = quote_mark();
    match write_chunk(sink, q.as_slice()) {
        Err(e) => {
            proof {
                lemma_ran_off(start, *sink, sq, sb + sq);
            }
            return Err(e);
        },
        Ok(()) => {},
    }
    let ghost first = *sink;
    match write_chunk(sink, text.as_bytes()) {
        Err(e) => {
            proof {
                lemma_ran_on(start, first, *sink, sq, sb, Err(e));
                lemma_ran_off(start, *sink, sq + sb, sq);
            }
            return Err(e);
        },
        Ok(()) => {
            proof {
                lemma_ran_on(start, first, *sink, sq, sb, Ok(()));
            }
        },
    }
    let ghost second = *sink;
    let r = write_chunk(sink, q.as_slice());
    proof {
        lemma_ran_on(start, second, *sink, sq + sb, sq, r);
    }
    r
}

/// Runs one instruction: makes, one after the other, the writes that the
/// instruction makes with `values`. The first write that the sink refuses ends
/// the run with its error, and nothing is written after it.
pub fn execute_one<S: Sink>(ins: &Instruction, sink: &mut S, values: &Vec<Binding>) -> (r: Result<
    (),
    SinkError,
>)
    ensures
        ran(*old(sink), *final(sink), writes_of_one(ins@, views(values@)), r),
    decreases values, 0nat,
{
    proof {
        let none = Seq::<Seq<u8>>::empty();
        assert(none.take(0) =~= none);
        assert(sink.written() + flat(none) =~= sink.written());
    }
    match ins {
        Instruction::WriteLiteral(bytes) => write_chunk(sink, bytes.as_slice()),
        Instruction::WriteEscaped(e) => match lookup(values, e.as_str()) {
            Some(i) => match &values[i].value {
                Value::Text(t) => {
                    let text = escape(t.as_str());
                    write_chunk(sink, text.as_str().as_bytes())
                },
                _ => Ok(()),
            },
            None => Ok(()),
        },
        Instruction::WriteQuoted(e) => match lookup(values, e.as_str()) {
            Some(i) => match &values[i].value {
                Value::Text(t) => write_quoted(sink, t.as_str()),
                _ => Ok(()),
            },
            None => Ok(()),
        },
        Instruction::WriteRawBytes(e) => match lookup(values, e.as_str()) {
            Some(i) => match &values[i].value {
                Value::Bytes(b) => write_chunk(sink, b.as_slice()),
                _ => Ok(()),
            },
            None => Ok(()),
        },
        Instruction::InvokeChild(e) => match lookup(values, e.as_str()) {
            Some(i) => match &values[i].value {
                Value::Child(f) => {
                    proof {
                        lemma_bindings_view(f.values@);
                    }
                    execute(&f.instructions, sink, &f.values)
                },
                _ => Ok(()),
            },
            None => Ok(()),
        },
    }
}

/// Runs an instruction list against `sink` with `values`.
///
/// The instructions run in order and each makes its writes to the sink. The
/// run succeeds exactly when the sink takes every write; it has then written
/// the whole output after what was there. The first write that the sink
/// refuses ends the run with its error: the instructions after it do not run,
/// nothing more is written, and what was written stays written. A run of an
/// empty list succeeds.
pub fn execute<S: Sink>(instructions: &Vec<Instruction>, sink: &mut S, values: &Vec<Binding>) -> (r:
    Result<(), SinkError>)
    ensures
        ran(*old(sink), *final(sink), writes_of(views(instructions@), views(values@)), r),
        r is Ok ==> final(sink).written() == old(sink).written() + rendered(
            views(instructions@),
            views(values@),
        ),
        r is Err ==> exists|k: int|
            stopped_in(
                old(sink).written(),
                final(sink).written(),
                views(instructions@),
                views(values@),
                k,
            ),
        instructions.len() == 0 ==> r is Ok,
    decreases values, 1nat,
{
    let ghost start = *sink;
    let ghost list = views(instructions@);
    let ghost vs = views(values@);
    let mut i: usize = 0;
    proof {
        let none = Seq::<Seq<u8>>::empty();
        assert(writes_of(list.take(0), vs) =~= none);
        assert(none.take(0) =~= none);
        assert(start.written() + flat(none) =~= start.written());
        lemma_rendered_is_flat(list, vs);
    }
    while i < instructions.len()
        invariant
            list == views(instructions@),
            vs == views(values@),
            0 <= i <= instructions.len(),
            start == *old(sink),
            ran(start, *sink, writes_of(list.take(i as int), vs), Ok(())),
        decreases instructions.len() - i,
    {
        let ghost mid = *sink;
        let ghost done = writes_of(list.take(i as int), vs);
        let ghost step = writes_of_one(list[i as int], vs);
        proof {
            assert(list.take(i as int + 1).drop_last() =~= list.take(i as int));
            assert(list.take(i as int + 1).last() == list[i as int]);
            assert(list[i as int] == instructions@[i as int]@);
            assert(writes_of(list.take(i as int + 1), vs) == done + step);
        }
        let r = execute_one(&instructions[i], sink, values);
        proof {
            lemma_ran_on(start, mid, *sink, done, step, r);
        }
        match r {
            Err(e) => {
                proof {
                    assert(list.take(i as int + 1) + list.skip(i as int + 1) =~= list);
                    lemma_writes_concat(list.take(i as int + 1), list.skip(i as int + 1), vs);
                    lemma_ran_off(
                        start,
                        *sink,
                        done + step,
                        writes_of(list.skip(i as int + 1), vs),
                    );
                    lemma_ran_within(mid, *sink, step, r);
                    lemma_rendered_is_flat(list.take(i as int), vs);
                    lemma_rendered_is_flat(list.take(i as int + 1), vs);
                    lemma_flat_concat(done, step);
                    assert(start.written() + flat(done + step) =~= start.written() + flat(done)
                        + flat(step));
                    assert(stopped_in(start.written(), sink.written(), list, vs, i as int));
                }
                return Err(e);
            },
            Ok(()) => {},
        }
        i += 1;
    }
    proof {
        assert(list.take(instructions.len() as int) =~= list);
    }
    Ok(())
}

/// Runs an instruction list with `values` and returns the bytes it writes.
pub fn render(instructions: &Vec<Instruction>, values: &Vec<Binding>) -> (out: Vec<u8>)
    ensures
        out@ == rendered(views(instructions@), views(values@)),
{
    let mut sink = Buffer::new();
    let ghost start = sink;
    let r = execute(instructions, &mut sink, values);
    proof {
        let chunks = writes_of(views(instructions@), views(values@));
        lemma_all_taken(start, start.written(), chunks);
        assert(Seq::<u8>::empty() + rendered(views(instructions@), views(values@)) =~= rendered(
            views(instructions@),
            views(values@),
        ));
    }
    sink.bytes
}

proof fn lemma_all_taken(sink: Buffer, held: Seq<u8>, chunks: Seq<Seq<u8>>)
    ensures
        taken(sink, held, chunks) == chunks.len(),
    decreases chunks.len(),
{
    if chunks.len() > 0 {
        lemma_all_taken(sink, held + chunks.first(), chunks.drop_first());
    }
}

} // verus!
