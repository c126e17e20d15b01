use vstd::prelude::*;

verus! {

/// Anything that can be packed: it has a size, the only thing the packing
/// strategies ever look at.
pub trait Pack {
    /// The size of the item, as contracts speak of it; an implementation
    /// returns the same value from `get_size`.
    spec fn spec_size(&self) -> u64;

    fn get_size(&self) -> (r: u64)
        ensures
            r == self.spec_size(),
    ;
}

/// Total size of a sequence of items.
pub open spec fn total_size<T: Pack>(s: Seq<T>) -> nat
    decreases s.len(),
{
    if s.len() == 0 {
        0
    } else {
        total_size(s.drop_last()) + s.last().spec_size() as nat
    }
}

/// A decimal digit as a character.
pub open spec fn digit_char(d: nat) -> char {
    seq!['0', '1', '2', '3', '4', '5', '6', '7', '8', '9'][d as int]
}

/// `n` written in decimal, without leading zeros.
pub open spec fn decimal(n: nat) -> Seq<char>
    decreases n,
{
    if n < 10 {
        seq![digit_char(n)]
    } else {
        decimal(n / 10).push(digit_char(n % 10))
    }
}

/// The sizes of the items, in decimal, joined by a comma and a space.
pub open spec fn sizes_text<T: Pack>(s: Seq<T>) -> Seq<char>
    decreases s.len(),
{
    if s.len() == 0 {
        Seq::empty()
    } else if s.len() == 1 {
        decimal(s[0].spec_size() as nat)
    } else {
        sizes_text(s.drop_last()) + ", "@ + decimal(s.last().spec_size() as nat)
    }
}

/// Relies on `u64::to_string` (its `Display`): the number in decimal.
#[verifier::external_body]
fn size_text(n: u64) -> (r: String)
    ensures
        r@ == decimal(n as nat),
{
    n.to_string()
}

/// A fixed-capacity container: the items it accepted, in order, and the
/// space that is still free.
pub struct Bin<T> {
    pub items: Vec<T>,
    pub remaining_space: u64,
}

impl<T: Pack> Bin<T> {
    /// The bin holds exactly `capacity` worth of items and free space.
    pub open spec fn conserves(&self, capacity: u64) -> bool {
        self.remaining_space as nat + total_size(self.items@) == capacity as nat
    }

    pub fn new(capacity: u64) -> (r: Bin<T>)
        ensures
            r.items@ == Seq::<T>::empty(),
            r.remaining_space == capacity,
            r.conserves(capacity),
    {
        Bin { items: Vec::new(), remaining_space: capacity }
    }

    /// Appends an item that is known to fit.
    pub fn add_item(&mut self, new_item: T)
        requires
            new_item.spec_size() <= old(self).remaining_space,
        ensures
            final(self).items@ == old(self).items@.push(new_item),
            final(self).remaining_space == old(self).remaining_space - new_item.spec_size(),
    {
        let size = new_item.get_size();
        self.remaining_space = self.remaining_space - size;
        self.items.push(new_item);
    }

    pub fn does_fit(&self, new_item: &T) -> (r: bool)
        ensures
            r == (new_item.spec_size() <= self.remaining_space),
    {
        new_item.get_size() <= self.remaining_space
    }

    /// A bin of the given capacity holding one seed item.
    pub fn new_from(new_item: T, capacity: u64) -> (r: Bin<T>)
        requires
            new_item.spec_size() <= capacity,
        ensures
            r.items@ == seq![new_item],
            r.remaining_space == capacity - new_item.spec_size(),
            r.conserves(capacity),
    {
        let size = new_item.get_size();
        let mut items: Vec<T> = Vec::new();
        items.push(new_item);
        proof {
            assert(items@.drop_last() =~= Seq::<T>::empty());
            assert(total_size(items@.drop_last()) == 0);
            assert(total_size(items@) == size as nat);
        }
        Bin { remaining_space: capacity - size, items }
    }

    /// The sizes of the items, in order, written in decimal and joined by
    /// a comma and a space.
    pub fn get_weights_pretty(&self) -> (r: String)
        ensures
            r@ == sizes_text(self.items@),
    {
        let mut out = String::new();
        let mut i: usize = 0;
        while i < self.items.len()
            invariant
                i <= self.items@.len(),
                out@ == sizes_text(self.items@.take(i as int)),
            decreases self.items@.len() - i,
        {
            let text = size_text(self.items[i].get_size());
            if i > 0 {
                out.append(", ");
            }
            out.append(text.as_str());
            proof {
                let t = self.items@.take(i + 1);
                assert(t.drop_last() =~= self.items@.take(i as int));
                assert(t.last() == self.items@[i as int]);
                assert(out@ =~= sizes_text(t));
            }
            i = i + 1;
        }
        assert(self.items@.take(self.items@.len() as int) =~= self.items@);
        out
    }

    pub fn get_count(&self) -> (r: usize)
        ensures
            r == self.items@.len(),
    {
        self.items.len()
    }
}

/// An item that no bin of the capacity could ever hold: its size, then the
/// capacity.
pub struct ObjectTooBigError(pub u64, pub u64);

impl ObjectTooBigError {
    /// The message for people: which size cannot fit into which capacity.
    pub fn to_string(&self) -> (r: String)
        ensures
            r@ == "Object too big! "@ + decimal(self.0 as nat) + " can't fit in "@ + decimal(
                self.1 as nat,
            ),
    {
        let mut out = String::from_str("Object too big! ");
        out.append(size_text(self.0).as_str());
        out.append(" can't fit in ");
        out.append(size_text(self.1).as_str());
        out
    }
}

} // verus!
