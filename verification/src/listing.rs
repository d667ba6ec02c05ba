//! Lists and texts as plain data, for failures to carry.
use vstd::prelude::*;

verus! {

/// A list that is plain data: two listings are equal just where they hold equal
/// items in the same order.
#[derive(Debug)]
pub enum Listing<T> {
    Empty,
    /// The items before the last, then the last.
    Then(Box<Listing<T>>, T),
}

impl<T> Listing<T> {
    /// The items in order.
    pub open spec fn items(self) -> Seq<T>
        decreases self,
    {
        match self {
            Listing::Empty => Seq::empty(),
            Listing::Then(front, last) => front.items().push(last),
        }
    }
}

/// The listing of a sequence.
#[verifier::opaque]
pub open spec fn listing<T>(items: Seq<T>) -> Listing<T>
    decreases items.len(),
{
    if items.len() == 0 {
        Listing::Empty
    } else {
        Listing::Then(Box::new(listing(items.drop_last())), items.last())
    }
}

/// A listing holds exactly the items it was made of.
pub proof fn listings_hold_their_items<T>(items: Seq<T>)
    ensures
        listing(items).items() == items,
    decreases items.len(),
{
    reveal(listing);
    if items.len() > 0 {
        listings_hold_their_items(items.drop_last());
        assert(items.drop_last().push(items.last()) =~= items);
    } else {
        assert(items =~= Seq::empty());
    }
}

/// One more item.
proof fn lemma_longer<T>(items: Seq<T>, count: nat)
    requires
        count < items.len(),
    ensures
        listing(items.take(count as int + 1)) == Listing::Then(
            Box::new(listing(items.take(count as int))),
            items[count as int],
        ),
{
    reveal(listing);
    assert(items.take(count as int + 1).drop_last() =~= items.take(count as int));
}

/// The listing of a slice.
pub fn listed<T: Copy>(items: &[T]) -> (r: Listing<T>)
    ensures
        r == listing(items@),
{
    let mut list: Listing<T> = Listing::Empty;
    let mut i: usize = 0;
    proof {
        reveal(listing);
        assert(items@.take(0) =~= Seq::empty());
    }
    while i < items.len()
        invariant
            i <= items@.len(),
            list == listing(items@.take(i as int)),
        decreases items@.len() - i,
    {
        proof {
            lemma_longer(items@, i as nat);
        }
        list = Listing::Then(Box::new(list), items[i]);
        i += 1;
    }
    assert(items@.take(i as int) =~= items@);
    list
}

/// The listing of the characters of a text.
pub fn listed_text(text: &str) -> (r: Listing<char>)
    ensures
        r == listing(text@),
{
    let mut list: Listing<char> = Listing::Empty;
    let mut i: usize = 0;
    let count: usize = text.unicode_len();
    proof {
        reveal(listing);
        assert(text@.take(0) =~= Seq::empty());
    }
    while i < count
        invariant
            count == text@.len(),
            i <= count,
            list == listing(text@.take(i as int)),
        decreases count - i,
    {
        proof {
            lemma_longer(text@, i as nat);
        }
        list = Listing::Then(Box::new(list), text.get_char(i));
        i += 1;
    }
    assert(text@.take(i as int) =~= text@);
    list
}

impl<T: Copy> Listing<T> {
    /// The items in order.
    pub fn to_vec(&self) -> (r: Vec<T>)
        ensures
            r@ == self.items(),
        decreases self,
    {
        match self {
            Listing::Empty => Vec::new(),
            Listing::Then(front, last) => {
                let mut list: Vec<T> = front.to_vec();
                list.push(*last);
                list
            },
        }
    }
}

} // verus!
