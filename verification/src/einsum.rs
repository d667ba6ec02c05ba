//! Two-operand einsum with an explicit output.
use crate::error::{err, invalid, Error};
use crate::graph::{scalar, Expr, Graph, Tensor, Value};
use crate::op::{Scalar, F32_ZERO};
use vstd::prelude::*;

verus! {

/// Whether the character is ASCII whitespace.
pub open spec fn is_space(c: char) -> bool {
    c == ' ' || c == '\t' || c == '\n' || c == '\r' || c == '\u{c}'
}

/// Whether the character is an ASCII letter.
pub open spec fn is_letter(c: char) -> bool {
    ('a' <= c && c <= 'z') || ('A' <= c && c <= 'Z')
}

/// The text without ASCII whitespace.
pub open spec fn stripped(text: Seq<char>) -> Seq<char>
    decreases text.len(),
{
    if text.len() == 0 {
        Seq::empty()
    } else {
        let rest = stripped(text.drop_last());
        if is_space(text.last()) {
            rest
        } else {
            rest.push(text.last())
        }
    }
}

/// The first position, from `start` on, of a label.
pub open spec fn index_from(labels: Seq<char>, start: nat, label: char) -> Option<nat>
    decreases labels.len() - start,
{
    if start >= labels.len() {
        None
    } else if labels[start as int] == label {
        Some(start)
    } else {
        index_from(labels, start + 1, label)
    }
}

/// The first position, from `start` on, of an arrow.
pub open spec fn arrow_from(text: Seq<char>, start: nat) -> Option<nat>
    decreases text.len() - start,
{
    if start + 1 >= text.len() {
        None
    } else if text[start as int] == '-' && text[start as int + 1] == '>' {
        Some(start)
    } else {
        arrow_from(text, start + 1)
    }
}

/// The label lists of an equation: left operand, right operand and output.
pub struct Labels {
    pub left: Seq<char>,
    pub right: Seq<char>,
    pub output: Seq<char>,
}

/// Whether every label in the list is an ASCII letter.
pub open spec fn all_letters(labels: Seq<char>) -> bool {
    forall|i: int| 0 <= i < labels.len() ==> is_letter(#[trigger] labels[i])
}

/// An equation split at its first arrow and the first comma before it.
pub open spec fn parsed(equation: Seq<char>) -> Result<Labels, Error> {
    let text = stripped(equation);
    match arrow_from(text, 0) {
        None => Err(invalid("einsum requires explicit -> output")),
        Some(arrow) => {
            let inputs = text.take(arrow as int);
            let output = text.skip(arrow as int + 2);
            match index_from(inputs, 0, ',') {
                None => Err(invalid("einsum requires two operands")),
                Some(comma) => {
                    let left = inputs.take(comma as int);
                    let right = inputs.skip(comma as int + 1);
                    if !all_letters(left) || !all_letters(right) || !all_letters(output) {
                        Err(invalid("einsum labels must be ASCII letters"))
                    } else {
                        Ok(Labels { left, right, output })
                    }
                },
            }
        },
    }
}

/// Whether equal labels have equal extents.
pub open spec fn consistent(labels: Seq<char>, dims: Seq<i64>) -> bool {
    forall|i: int, j: int|
        0 <= i < labels.len() && 0 <= j < labels.len() && labels[i] == labels[j] ==> dims[i]
            == dims[j]
}

/// The extent of a label.
pub open spec fn extent_of(labels: Seq<char>, dims: Seq<i64>, label: char) -> i64 {
    dims[labels.index_of(label)]
}

/// The extents of the output labels.
pub open spec fn output_dims(labels: Seq<char>, dims: Seq<i64>, output: Seq<char>) -> Seq<i64> {
    Seq::new(output.len(), |i: int| extent_of(labels, dims, output[i]))
}

/// Whether the output labels are distinct and occur among the inputs.
pub open spec fn output_valid(labels: Seq<char>, output: Seq<char>) -> bool {
    &&& output.no_duplicates()
    &&& forall|i: int| 0 <= i < output.len() ==> labels.contains(#[trigger] output[i])
}

/// Whether a summed label has extent zero, so that there are no products.
pub open spec fn sums_nothing(labels: Seq<char>, dims: Seq<i64>, output: Seq<char>) -> bool {
    exists|i: int|
        0 <= i < labels.len() && dims[i] == 0 && !output.contains(#[trigger] labels[i])
}

/// The first two positions, from `start` on, that carry one label.
pub open spec fn repeated_from(labels: Seq<char>, start: nat) -> Option<(nat, nat)>
    decreases labels.len() - start,
{
    if start >= labels.len() {
        None
    } else {
        match index_from(labels, start + 1, labels[start as int]) {
            Some(second) => Some((start, second)),
            None => repeated_from(labels, start + 1),
        }
    }
}

/// The labels after the diagonal of two positions has been taken.
pub open spec fn merged_labels(labels: Seq<char>, first: nat, second: nat) -> Seq<char> {
    labels.remove(second as int).remove(first as int).push(labels[first as int])
}

/// Diagonals taken until no label repeats.
pub open spec fn untangled(value: Expr, labels: Seq<char>) -> (Expr, Seq<char>)
    decreases labels.len(),
{
    match repeated_from(labels, 0) {
        None => (value, labels),
        Some((first, second)) => if first < second < labels.len() {
            untangled(
                value.diagonal(0, first as usize, second as usize),
                merged_labels(labels, first, second),
            )
        } else {
            (value, labels)
        },
    }
}

/// Positions of the labels that occur neither in the other operand nor in the
/// output.
pub open spec fn dangling(labels: Seq<char>, other: Seq<char>, output: Seq<char>) -> Seq<usize>
    decreases labels.len(),
{
    if labels.len() == 0 {
        Seq::empty()
    } else {
        let rest = dangling(labels.drop_last(), other, output);
        if other.contains(labels.last()) || output.contains(labels.last()) {
            rest
        } else {
            rest.push((labels.len() - 1) as usize)
        }
    }
}

/// The labels that occur in the other operand or in the output.
pub open spec fn retained(labels: Seq<char>, other: Seq<char>, output: Seq<char>) -> Seq<char>
    decreases labels.len(),
{
    if labels.len() == 0 {
        Seq::empty()
    } else {
        let rest = retained(labels.drop_last(), other, output);
        if other.contains(labels.last()) || output.contains(labels.last()) {
            rest.push(labels.last())
        } else {
            rest
        }
    }
}

/// One operand with distinct labels, all of them still needed.
#[verifier::opaque]
pub open spec fn prepared(
    value: Expr,
    labels: Seq<char>,
    other: Seq<char>,
    output: Seq<char>,
) -> (Expr, Seq<char>) {
    let (plain, distinct) = untangled(value, labels);
    let reduce = dangling(distinct, other, output);
    if reduce.len() == 0 {
        (plain, distinct)
    } else {
        (plain.sum(reduce, false), retained(distinct, other, output))
    }
}

/// Positions in the left list of labels that the right list shares, either
/// those in the output or those that are summed.
pub open spec fn shared_left(
    left: Seq<char>,
    right: Seq<char>,
    output: Seq<char>,
    batch: bool,
) -> Seq<usize>
    decreases left.len(),
{
    if left.len() == 0 {
        Seq::empty()
    } else {
        let rest = shared_left(left.drop_last(), right, output, batch);
        if index_from(right, 0, left.last()) is Some && output.contains(left.last()) == batch {
            rest.push((left.len() - 1) as usize)
        } else {
            rest
        }
    }
}

/// Positions in the right list of the same labels, in the left list's order.
pub open spec fn shared_right(
    left: Seq<char>,
    right: Seq<char>,
    output: Seq<char>,
    batch: bool,
) -> Seq<usize>
    decreases left.len(),
{
    if left.len() == 0 {
        Seq::empty()
    } else {
        let rest = shared_right(left.drop_last(), right, output, batch);
        match index_from(right, 0, left.last()) {
            Some(j) => if output.contains(left.last()) == batch {
                rest.push(j as usize)
            } else {
                rest
            },
            None => rest,
        }
    }
}

/// The labels that both operands and the output share.
pub open spec fn batch_labels(left: Seq<char>, right: Seq<char>, output: Seq<char>) -> Seq<char>
    decreases left.len(),
{
    if left.len() == 0 {
        Seq::empty()
    } else {
        let rest = batch_labels(left.drop_last(), right, output);
        if index_from(right, 0, left.last()) is Some && output.contains(left.last()) {
            rest.push(left.last())
        } else {
            rest
        }
    }
}

/// The labels of one list that the other lacks.
pub open spec fn labels_without(labels: Seq<char>, other: Seq<char>) -> Seq<char>
    decreases labels.len(),
{
    if labels.len() == 0 {
        Seq::empty()
    } else {
        let rest = labels_without(labels.drop_last(), other);
        if other.contains(labels.last()) {
            rest
        } else {
            rest.push(labels.last())
        }
    }
}

/// The label order of the contraction's result.
pub open spec fn result_labels(left: Seq<char>, right: Seq<char>, output: Seq<char>) -> Seq<char> {
    batch_labels(left, right, output) + labels_without(left, right) + labels_without(right, left)
}

/// The position of every output label in the contraction's result.
pub open spec fn output_order(result: Seq<char>, output: Seq<char>) -> Option<Seq<usize>>
    decreases output.len(),
{
    if output.len() == 0 {
        Some(Seq::empty())
    } else {
        match output_order(result, output.drop_last()) {
            None => None,
            Some(order) => match index_from(result, 0, output.last()) {
                None => None,
                Some(position) => Some(order.push(position as usize)),
            },
        }
    }
}

/// The contraction of two prepared operands, its axes in output order.
pub open spec fn contracted(
    left: (Expr, Seq<char>),
    right: (Expr, Seq<char>),
    output: Seq<char>,
) -> Expr {
    let (ll, rl) = (left.1, right.1);
    match output_order(result_labels(ll, rl, output), output) {
        None => Expr::invalid("einsum output label lost during lowering"),
        Some(permutation) => left.0.dot_general(
            right.0,
            shared_left(ll, rl, output, false),
            shared_right(ll, rl, output, false),
            shared_left(ll, rl, output, true),
            shared_right(ll, rl, output, true),
        ).transpose(permutation),
    }
}

/// The first reason why an equation does not fit its two operands.
pub open spec fn einsum_error(x: Value, equation: Seq<char>, y: Value) -> Option<Error> {
    if x.graph != y.graph {
        Some(invalid("cross-graph einsum operands"))
    } else {
        match parsed(equation) {
            Err(e) => Some(e),
            Ok(labels) => {
                let all = labels.left + labels.right;
                if labels.left.len() != x.dims.len() || labels.right.len() != y.dims.len() {
                    Some(invalid("einsum label count must match operand rank"))
                } else if !consistent(all, x.dims + y.dims) {
                    Some(invalid("einsum dimensions for equal labels must match"))
                } else if !output_valid(all, labels.output) {
                    Some(invalid("einsum output labels must be unique and present in inputs"))
                } else {
                    None
                }
            },
        }
    }
}

impl Expr {
    /// Einsum of two operands: repeated labels select diagonals, labels missing
    /// from the output are summed, and the output labels order the result.
    pub open spec fn einsum(self, equation: Seq<char>, rhs: Expr) -> Expr {
        match (self, rhs) {
            (Expr::Fails(e), _) => Expr::Fails(e),
            (_, Expr::Fails(e)) => Expr::Fails(e),
            (Expr::Is(x), Expr::Is(y)) => match einsum_error(x, equation, y) {
                Some(e) => Expr::Fails(e),
                None => {
                    let labels = parsed(equation)->Ok_0;
                    let all = labels.left + labels.right;
                    let dims = x.dims + y.dims;
                    if sums_nothing(all, dims, labels.output) {
                        scalar(x.graph, Scalar::Bits(F32_ZERO)).broadcast_to(
                            output_dims(all, dims, labels.output),
                        )
                    } else {
                        let left = prepared(self, labels.left, labels.right, labels.output);
                        let right = prepared(rhs, labels.right, left.1, labels.output);
                        contracted(left, right, labels.output).given(right.0).given(left.0)
                    }
                },
            },
        }
    }
}

/// The characters of a text.
pub(crate) fn characters(text: &str) -> (r: Vec<char>)
    ensures
        r@ == text@,
{
    let count: usize = text.unicode_len();
    let mut chars: Vec<char> = Vec::new();
    let mut i: usize = 0;
    while i < count
        invariant
            i <= count == text@.len(),
            chars@ == text@.take(i as int),
        decreases count - i,
    {
        chars.push(text.get_char(i));
        assert(chars@ =~= text@.take(i + 1));
        i += 1;
    }
    assert(chars@ =~= text@);
    chars
}

/// The text without ASCII whitespace.
fn strip(text: &Vec<char>) -> (r: Vec<char>)
    ensures
        r@ == stripped(text@),
{
    let mut result: Vec<char> = Vec::new();
    let mut i: usize = 0;
    assert(text@.take(0) =~= Seq::<char>::empty());
    while i < text.len()
        invariant
            i <= text@.len(),
            result@ == stripped(text@.take(i as int)),
        decreases text@.len() - i,
    {
        let c: char = text[i];
        assert(text@.take(i + 1).drop_last() =~= text@.take(i as int));
        if !(c == ' ' || c == '\t' || c == '\n' || c == '\r' || c == '\u{c}') {
            result.push(c);
        }
        i += 1;
    }
    assert(text@.take(i as int) =~= text@);
    result
}

/// The first position, from `start` on, of a label.
fn find(labels: &[char], start: usize, label: char) -> (r: Option<usize>)
    ensures
        match r {
            Some(i) => index_from(labels@, start as nat, label) == Some(i as nat) && start <= i
                < labels@.len() && labels@[i as int] == label,
            None => index_from(labels@, start as nat, label) is None,
        },
{
    let mut i: usize = start;
    while i < labels.len()
        invariant
            start <= i,
            index_from(labels@, start as nat, label) == index_from(labels@, i as nat, label),
        decreases labels@.len() - i,
    {
        if labels[i] == label {
            return Some(i);
        }
        i += 1;
    }
    None
}

/// Whether a label occurs in a list.
fn occurs(labels: &[char], label: char) -> (r: bool)
    ensures
        r == labels@.contains(label),
        r == (index_from(labels@, 0, label) is Some),
{
    match find(labels, 0, label) {
        Some(i) => {
            assert(labels@[i as int] == label);
            true
        },
        None => {
            proof {
                lemma_index_none(labels@, 0, label);
            }
            false
        },
    }
}

/// A label without a position does not occur.
proof fn lemma_index_none(labels: Seq<char>, start: nat, label: char)
    requires
        index_from(labels, start, label) is None,
    ensures
        forall|i: int| start <= i < labels.len() ==> labels[i] != label,
    decreases labels.len() - start,
{
    if start < labels.len() {
        lemma_index_none(labels, start + 1, label);
    }
}

/// The first position of an arrow.
fn find_arrow(text: &[char]) -> (r: Option<usize>)
    ensures
        match r {
            Some(i) => arrow_from(text@, 0) == Some(i as nat) && i + 2 <= text@.len(),
            None => arrow_from(text@, 0) is None,
        },
{
    let mut i: usize = 0;
    let count: usize = text.len();
    if count < 2 {
        return None;
    }
    while i < count - 1
        invariant
            2 <= count == text@.len(),
            i <= count - 1,
            arrow_from(text@, 0) == arrow_from(text@, i as nat),
        decreases count - i,
    {
        if text[i] == '-' && text[i + 1] == '>' {
            return Some(i);
        }
        i += 1;
    }
    None
}

/// Whether every label in the list is an ASCII letter.
fn letters(labels: &[char]) -> (r: bool)
    ensures
        r == all_letters(labels@),
{
    let mut i: usize = 0;
    while i < labels.len()
        invariant
            i <= labels@.len(),
            forall|j: int| 0 <= j < i ==> is_letter(#[trigger] labels@[j]),
        decreases labels@.len() - i,
    {
        let c: char = labels[i];
        if !(('a' <= c && c <= 'z') || ('A' <= c && c <= 'Z')) {
            assert(!is_letter(labels@[i as int]));
            return false;
        }
        i += 1;
    }
    true
}

/// A part of a text.
fn part(text: &[char], start: usize, end: usize) -> (r: Vec<char>)
    requires
        start <= end <= text@.len(),
    ensures
        r@ == text@.subrange(start as int, end as int),
{
    vstd::slice::slice_to_vec(vstd::slice::slice_subrange(text, start, end))
}

/// The label lists of an equation, or why it is refused.
fn parse(equation: &str) -> (r: Result<(Vec<char>, Vec<char>, Vec<char>), Error>)
    ensures
        match r {
            Ok((left, right, output)) => parsed(equation@) == Ok::<Labels, Error>(
                Labels { left: left@, right: right@, output: output@ },
            ),
            Err(e) => parsed(equation@) == Err::<Labels, Error>(e),
        },
{
    let raw: Vec<char> = characters(equation);
    let text: Vec<char> = strip(&raw);
    let count: usize = text.len();
    let arrow: usize = match find_arrow(text.as_slice()) {
        Some(arrow) => arrow,
        None => {
            return Err(err("einsum requires explicit -> output"));
        },
    };
    let inputs: Vec<char> = part(text.as_slice(), 0, arrow);
    let output: Vec<char> = part(text.as_slice(), arrow + 2, count);
    assert(inputs@ =~= text@.take(arrow as int));
    assert(output@ =~= text@.skip(arrow as int + 2));
    let comma: usize = match find(inputs.as_slice(), 0, ',') {
        Some(comma) => comma,
        None => {
            return Err(err("einsum requires two operands"));
        },
    };
    let left: Vec<char> = part(inputs.as_slice(), 0, comma);
    let right: Vec<char> = part(inputs.as_slice(), comma + 1, inputs.len());
    assert(left@ =~= inputs@.take(comma as int));
    assert(right@ =~= inputs@.skip(comma as int + 1));
    if !letters(left.as_slice()) || !letters(right.as_slice()) || !letters(output.as_slice()) {
        return Err(err("einsum labels must be ASCII letters"));
    }
    Ok((left, right, output))
}

/// One list of labels followed by another.
fn both(a: &[char], b: &[char]) -> (r: Vec<char>)
    ensures
        r@ == a@ + b@,
{
    let mut result: Vec<char> = vstd::slice::slice_to_vec(a);
    let mut i: usize = 0;
    while i < b.len()
        invariant
            i <= b@.len(),
            result@ == a@ + b@.take(i as int),
        decreases b@.len() - i,
    {
        result.push(b[i]);
        assert(result@ =~= a@ + b@.take(i + 1));
        i += 1;
    }
    assert(b@.take(i as int) =~= b@);
    result
}

/// Whether equal labels have equal extents.
fn check_consistent(labels: &[char], dims: &[i64]) -> (r: bool)
    requires
        labels@.len() == dims@.len(),
    ensures
        r == consistent(labels@, dims@),
{
    let mut i: usize = 0;
    while i < labels.len()
        invariant
            labels@.len() == dims@.len(),
            i <= labels@.len(),
            forall|a: int, b: int|
                0 <= a < i && 0 <= b < labels@.len() && labels@[a] == labels@[b] ==> dims@[a]
                    == dims@[b],
        decreases labels@.len() - i,
    {
        let mut j: usize = 0;
        while j < labels.len()
            invariant
                labels@.len() == dims@.len(),
                i < labels@.len(),
                j <= labels@.len(),
                forall|b: int|
                    0 <= b < j && labels@[i as int] == labels@[b] ==> dims@[i as int] == dims@[b],
            decreases labels@.len() - j,
        {
            if labels[i] == labels[j] && dims[i] != dims[j] {
                assert(labels@[i as int] == labels@[j as int] && dims@[i as int] != dims@[j as int]);
                return false;
            }
            j += 1;
        }
        i += 1;
    }
    true
}

/// Whether the output labels are distinct and occur among the inputs.
fn check_output(labels: &[char], output: &[char]) -> (r: bool)
    ensures
        r == output_valid(labels@, output@),
{
    let mut i: usize = 0;
    while i < output.len()
        invariant
            i <= output@.len(),
            forall|a: int| 0 <= a < i ==> labels@.contains(#[trigger] output@[a]),
            forall|a: int, b: int| 0 <= a < i && 0 <= b < i && a != b ==> output@[a] != output@[b],
        decreases output@.len() - i,
    {
        if !occurs(labels, output[i]) {
            assert(!labels@.contains(output@[i as int]));
            return false;
        }
        let mut j: usize = 0;
        while j < i
            invariant
                j <= i < output@.len(),
                forall|b: int| 0 <= b < j ==> output@[b] != output@[i as int],
            decreases i - j,
        {
            if output[j] == output[i] {
                assert(!output@.no_duplicates());
                return false;
            }
            j += 1;
        }
        i += 1;
    }
    true
}

/// Whether a summed label has extent zero.
fn check_empty(labels: &[char], dims: &[i64], output: &[char]) -> (r: bool)
    requires
        labels@.len() == dims@.len(),
    ensures
        r == sums_nothing(labels@, dims@, output@),
{
    let mut i: usize = 0;
    while i < labels.len()
        invariant
            labels@.len() == dims@.len(),
            i <= labels@.len(),
            forall|a: int|
                0 <= a < i ==> !(dims@[a] == 0 && !output@.contains(#[trigger] labels@[a])),
        decreases labels@.len() - i,
    {
        if dims[i] == 0 && !occurs(output, labels[i]) {
            assert(dims@[i as int] == 0 && !output@.contains(labels@[i as int]));
            return true;
        }
        i += 1;
    }
    false
}

/// The extents of the output labels.
fn output_extents(labels: &[char], dims: &[i64], output: &[char]) -> (r: Vec<i64>)
    requires
        labels@.len() == dims@.len(),
        consistent(labels@, dims@),
        output_valid(labels@, output@),
    ensures
        r@ == output_dims(labels@, dims@, output@),
{
    let mut result: Vec<i64> = Vec::new();
    let mut i: usize = 0;
    while i < output.len()
        invariant
            labels@.len() == dims@.len(),
            consistent(labels@, dims@),
            output_valid(labels@, output@),
            i <= output@.len(),
            result@.len() == i,
            forall|j: int|
                0 <= j < i ==> #[trigger] result@[j] == output_dims(labels@, dims@, output@)[j],
        decreases output@.len() - i,
    {
        let label: char = output[i];
        assert(labels@.contains(output@[i as int]));
        match find(labels, 0, label) {
            Some(k) => {
                proof {
                    let first = labels@.index_of(label);
                    assert(labels@[first] == label);
                    assert(labels@[k as int] == labels@[first]);
                }
                result.push(dims[k]);
            },
            None => {
                proof {
                    lemma_index_none(labels@, 0, label);
                }
                result.push(0);
            },
        }
        i += 1;
    }
    assert(result@ =~= output_dims(labels@, dims@, output@));
    result
}

/// The first two positions that carry one label.
fn find_repeated(labels: &[char]) -> (r: Option<(usize, usize)>)
    ensures
        match r {
            Some((a, b)) => repeated_from(labels@, 0) == Some((a as nat, b as nat)) && a < b
                < labels@.len(),
            None => repeated_from(labels@, 0) is None,
        },
{
    let mut i: usize = 0;
    while i < labels.len()
        invariant
            i <= labels@.len(),
            repeated_from(labels@, 0) == repeated_from(labels@, i as nat),
        decreases labels@.len() - i,
    {
        match find(labels, i + 1, labels[i]) {
            Some(j) => {
                return Some((i, j));
            },
            None => {},
        }
        i += 1;
    }
    None
}

/// A failure stays a failure through further diagonals.
pub(crate) proof fn lemma_untangled_failed(e: Error, labels: Seq<char>)
    ensures
        untangled(Expr::Fails(e), labels).0 == Expr::Fails(e),
    decreases labels.len(),
{
    reveal(Expr::diagonal);
    match repeated_from(labels, 0) {
        None => {},
        Some((first, second)) => {
            if first < second < labels.len() {
                lemma_untangled_failed(e, merged_labels(labels, first, second));
            }
        },
    }
}

/// Positions of the labels that are needed nowhere else.
fn dangling_axes(labels: &[char], other: &[char], output: &[char]) -> (r: Vec<usize>)
    ensures
        r@ == dangling(labels@, other@, output@),
{
    let mut axes: Vec<usize> = Vec::new();
    let mut i: usize = 0;
    assert(labels@.take(0) =~= Seq::<char>::empty());
    while i < labels.len()
        invariant
            i <= labels@.len(),
            axes@ == dangling(labels@.take(i as int), other@, output@),
        decreases labels@.len() - i,
    {
        assert(labels@.take(i + 1).drop_last() =~= labels@.take(i as int));
        if !(occurs(other, labels[i]) || occurs(output, labels[i])) {
            axes.push(i);
        }
        i += 1;
    }
    assert(labels@.take(i as int) =~= labels@);
    axes
}

/// The labels that are needed elsewhere.
fn retained_labels(labels: &[char], other: &[char], output: &[char]) -> (r: Vec<char>)
    ensures
        r@ == retained(labels@, other@, output@),
{
    let mut result: Vec<char> = Vec::new();
    let mut i: usize = 0;
    assert(labels@.take(0) =~= Seq::<char>::empty());
    while i < labels.len()
        invariant
            i <= labels@.len(),
            result@ == retained(labels@.take(i as int), other@, output@),
        decreases labels@.len() - i,
    {
        assert(labels@.take(i + 1).drop_last() =~= labels@.take(i as int));
        if occurs(other, labels[i]) || occurs(output, labels[i]) {
            result.push(labels[i]);
        }
        i += 1;
    }
    assert(labels@.take(i as int) =~= labels@);
    result
}

/// Positions of shared labels on both sides.
fn shared_axes(left: &[char], right: &[char], output: &[char], batch: bool) -> (r: (
    Vec<usize>,
    Vec<usize>,
))
    ensures
        r.0@ == shared_left(left@, right@, output@, batch),
        r.1@ == shared_right(left@, right@, output@, batch),
{
    let mut on_left: Vec<usize> = Vec::new();
    let mut on_right: Vec<usize> = Vec::new();
    let mut i: usize = 0;
    assert(left@.take(0) =~= Seq::<char>::empty());
    while i < left.len()
        invariant
            i <= left@.len(),
            on_left@ == shared_left(left@.take(i as int), right@, output@, batch),
            on_right@ == shared_right(left@.take(i as int), right@, output@, batch),
        decreases left@.len() - i,
    {
        assert(left@.take(i + 1).drop_last() =~= left@.take(i as int));
        match find(right, 0, left[i]) {
            Some(j) => {
                if occurs(output, left[i]) == batch {
                    on_left.push(i);
                    on_right.push(j);
                }
            },
            None => {},
        }
        i += 1;
    }
    assert(left@.take(i as int) =~= left@);
    (on_left, on_right)
}

/// The labels that both operands and the output share.
fn shared_labels(left: &[char], right: &[char], output: &[char]) -> (r: Vec<char>)
    ensures
        r@ == batch_labels(left@, right@, output@),
{
    let mut result: Vec<char> = Vec::new();
    let mut i: usize = 0;
    assert(left@.take(0) =~= Seq::<char>::empty());
    while i < left.len()
        invariant
            i <= left@.len(),
            result@ == batch_labels(left@.take(i as int), right@, output@),
        decreases left@.len() - i,
    {
        assert(left@.take(i + 1).drop_last() =~= left@.take(i as int));
        if occurs(right, left[i]) && occurs(output, left[i]) {
            result.push(left[i]);
        }
        i += 1;
    }
    assert(left@.take(i as int) =~= left@);
    result
}

/// The labels of one list that the other lacks.
fn lacking(labels: &[char], other: &[char]) -> (r: Vec<char>)
    ensures
        r@ == labels_without(labels@, other@),
{
    let mut result: Vec<char> = Vec::new();
    let mut i: usize = 0;
    assert(labels@.take(0) =~= Seq::<char>::empty());
    while i < labels.len()
        invariant
            i <= labels@.len(),
            result@ == labels_without(labels@.take(i as int), other@),
        decreases labels@.len() - i,
    {
        assert(labels@.take(i + 1).drop_last() =~= labels@.take(i as int));
        if !occurs(other, labels[i]) {
            result.push(labels[i]);
        }
        i += 1;
    }
    assert(labels@.take(i as int) =~= labels@);
    result
}

/// The position of every output label in the contraction's result.
fn order_of(result: &[char], output: &[char]) -> (r: Option<Vec<usize>>)
    ensures
        match r {
            Some(order) => output_order(result@, output@) == Some(order@),
            None => output_order(result@, output@) is None,
        },
{
    let mut order: Vec<usize> = Vec::new();
    let mut i: usize = 0;
    assert(output@.take(0) =~= Seq::<char>::empty());
    while i < output.len()
        invariant
            i <= output@.len(),
            output_order(result@, output@.take(i as int)) == Some(order@),
        decreases output@.len() - i,
    {
        assert(output@.take(i + 1).drop_last() =~= output@.take(i as int));
        match find(result, 0, output[i]) {
            Some(position) => {
                order.push(position);
            },
            None => {
                proof {
                    lemma_order_none(result@, output@, i + 1);
                }
                return None;
            },
        }
        i += 1;
    }
    assert(output@.take(i as int) =~= output@);
    Some(order)
}

/// A list has no order where one of its prefixes has none.
proof fn lemma_order_none(result: Seq<char>, output: Seq<char>, length: int)
    requires
        0 <= length <= output.len(),
        output_order(result, output.take(length)) is None,
    ensures
        output_order(result, output) is None,
    decreases output.len(),
{
    if length == output.len() {
        assert(output.take(length) =~= output);
    } else {
        assert(output.drop_last().take(length) =~= output.take(length));
        lemma_order_none(result, output.drop_last(), length);
    }
}

impl Tensor {
    /// One operand with distinct labels, all of them still needed.
    fn einsum_operand(
        &self,
        graph: &mut Graph,
        labels: &[char],
        other: &[char],
        output: &[char],
    ) -> (r: Result<(Tensor, Vec<char>), Error>)
        requires
            old(graph).wf(),
            old(graph).owns(*self),
        ensures
            final(graph).extends(*old(graph)),
            match r {
                Ok((value, kept)) => {
                    &&& final(graph).owns(value)
                    &&& prepared(self.expr(), labels@, other@, output@) == (value.expr(), kept@)
                },
                Err(e) => prepared(self.expr(), labels@, other@, output@).0 == Expr::Fails(e),
            },
    {
        let mut value: Tensor = self.copy();
        let mut current: Vec<char> = vstd::slice::slice_to_vec(labels);
        let ghost whole = untangled(self.expr(), labels@);
        let mut more: bool = true;
        while more
            invariant
                old(graph).owns(*self),
                graph.extends(*old(graph)),
                graph.owns(value),
                whole == untangled(self.expr(), labels@),
                whole == untangled(value.expr(), current@),
                !more ==> repeated_from(current@, 0) is None,
            decreases
                    current@.len() + if more {
                        1int
                    } else {
                        0int
                    },
        {
            match find_repeated(current.as_slice()) {
                None => {
                    more = false;
                },
                Some((first, second)) => {
                    let label: char = current[first];
                    match value.diagonal(graph, 0, first, second) {
                        Ok(next) => {
                            value = next;
                        },
                        Err(e) => {
                            proof {
                                reveal(prepared);
                                reveal(Expr::reduce);
                                lemma_untangled_failed(
                                    e,
                                    merged_labels(current@, first as nat, second as nat),
                                );
                            }
                            return Err(e);
                        },
                    }
                    current.remove(second);
                    current.remove(first);
                    current.push(label);
                },
            }
        }
        proof {
            reveal(prepared);
        }
        let reduce: Vec<usize> = dangling_axes(current.as_slice(), other, output);
        if reduce.len() == 0 {
            return Ok((value, current));
        }
        let summed: Tensor = value.sum(graph, reduce.as_slice(), false)?;
        let kept: Vec<char> = retained_labels(current.as_slice(), other, output);
        Ok((summed, kept))
    }

    /// Two-operand einsum with an explicit output, such as `bmk,kbn->bmn`.
    /// Labels are case-sensitive ASCII letters; ASCII whitespace is ignored.
    /// Repeated input labels select diagonals, omitted labels are summed, and
    /// output labels must be unique and present in an input.
    pub fn einsum(
        &self,
        graph: &mut Graph,
        equation: &str,
        rhs: &Tensor,
    ) -> (r: Result<Tensor, Error>)
        requires
            old(graph).wf(),
            old(graph).owns(*self),
            old(graph).admits(*rhs),
        ensures
            final(graph).extends(*old(graph)),
            final(graph).yields(r, self.expr().einsum(equation@, rhs.expr())),
            einsum_error(self@, equation@, rhs@) is Some ==> *final(graph) == *old(graph),
    {
        if !self.same_graph(rhs) {
            return Err(err("cross-graph einsum operands"));
        }
        let (left, right, output): (Vec<char>, Vec<char>, Vec<char>) = parse(equation)?;
        if left.len() != self.shape().len() || right.len() != rhs.shape().len() {
            return Err(err("einsum label count must match operand rank"));
        }
        let labels: Vec<char> = both(left.as_slice(), right.as_slice());
        let dims: Vec<i64> = crate::matmul::chained(self.shape(), rhs.shape());
        if !check_consistent(labels.as_slice(), dims.as_slice()) {
            return Err(err("einsum dimensions for equal labels must match"));
        }
        if !check_output(labels.as_slice(), output.as_slice()) {
            return Err(err("einsum output labels must be unique and present in inputs"));
        }
        if check_empty(labels.as_slice(), dims.as_slice(), output.as_slice()) {
            let shape: Vec<i64> = output_extents(labels.as_slice(), dims.as_slice(), output.as_slice());
            let zero: Tensor = graph.scalar(Scalar::Bits(F32_ZERO))?;
            return zero.broadcast_to(graph, shape.as_slice());
        }
        let (lhs, ll): (Tensor, Vec<char>) = self.einsum_operand(
            graph,
            left.as_slice(),
            right.as_slice(),
            output.as_slice(),
        )?;
        let (rhs, rl): (Tensor, Vec<char>) = rhs.einsum_operand(
            graph,
            right.as_slice(),
            ll.as_slice(),
            output.as_slice(),
        )?;
        let (lc, rc): (Vec<usize>, Vec<usize>) = shared_axes(
            ll.as_slice(),
            rl.as_slice(),
            output.as_slice(),
            false,
        );
        let (lb, rb): (Vec<usize>, Vec<usize>) = shared_axes(
            ll.as_slice(),
            rl.as_slice(),
            output.as_slice(),
            true,
        );
        let shared: Vec<char> = shared_labels(ll.as_slice(), rl.as_slice(), output.as_slice());
        let lhs_only: Vec<char> = lacking(ll.as_slice(), rl.as_slice());
        let rhs_only: Vec<char> = lacking(rl.as_slice(), ll.as_slice());
        let result: Vec<char> = both(
            both(shared.as_slice(), lhs_only.as_slice()).as_slice(),
            rhs_only.as_slice(),
        );
        let permutation: Vec<usize> = match order_of(result.as_slice(), output.as_slice()) {
            Some(permutation) => permutation,
            None => {
                return Err(err("einsum output label lost during lowering"));
            },
        };
        let product: Tensor = lhs.dot_general(
            graph,
            &rhs,
            lc.as_slice(),
            rc.as_slice(),
            lb.as_slice(),
            rb.as_slice(),
        )?;
        product.transpose(graph, permutation.as_slice())
    }
}

} // verus!
