use vstd::prelude::*;

verus! {

/// A key and its value, as the chains of a table hold them.
#[derive(Debug)]
pub struct Entry {
    pub key: String,
    pub value: String,
}

impl View for Entry {
    type V = (Seq<char>, Seq<char>);

    open spec fn view(&self) -> (Seq<char>, Seq<char>) {
        (self.key@, self.value@)
    }
}

impl Entry {
    pub fn new(key: &str, value: &str) -> (r: Entry)
        ensures
            r@ == (key@, value@),
    {
        Entry { key: key.to_owned(), value: value.to_owned() }
    }
}

impl PartialEq for Entry {
    fn eq(&self, other: &Entry) -> (r: bool)
        ensures
            r == (self@ == other@),
    {
        self.key == other.key && self.value == other.value
    }
}

impl vstd::std_specs::cmp::PartialEqSpecImpl for Entry {
    open spec fn obeys_eq_spec() -> bool {
        true
    }

    open spec fn eq_spec(&self, other: &Entry) -> bool {
        self@ == other@
    }
}

/// Pairs of key and value, the front of a chain first.
pub type Chain = Seq<(Seq<char>, Seq<char>)>;

/// `k` is the key of some entry of `s`.
pub open spec fn has_key(s: Chain, k: Seq<char>) -> bool {
    exists|i: int| 0 <= i < s.len() && #[trigger] s[i].0 == k
}

/// `i` is the position of the first entry of `s` whose key is `k`.
pub open spec fn first_with_key(s: Chain, k: Seq<char>, i: int) -> bool {
    &&& 0 <= i < s.len()
    &&& s[i].0 == k
    &&& forall|j: int| 0 <= j < i ==> #[trigger] s[j].0 != k
}

/// No two entries of `s` share a key.
pub open spec fn unique_keys(s: Chain) -> bool {
    forall|i: int, j: int| 0 <= i < s.len() && 0 <= j < s.len() && i != j ==> #[trigger] s[i].0 != #[trigger] s[j].0
}

/// The value that `s` holds for `k`, where `k` is the key of one of its entries.
pub open spec fn value_of(s: Chain, k: Seq<char>) -> Seq<char>
    recommends
        has_key(s, k),
{
    s[choose|i: int| 0 <= i < s.len() && #[trigger] s[i].0 == k].1
}

/// In a chain without repeated keys, the value for a key is the one beside it.
pub proof fn lemma_value_of_unique(s: Chain, k: Seq<char>, i: int)
    requires
        unique_keys(s),
        0 <= i < s.len(),
        s[i].0 == k,
    ensures
        has_key(s, k),
        value_of(s, k) == s[i].1,
{
    let j = choose|j: int| 0 <= j < s.len() && #[trigger] s[j].0 == k;
    if j != i {
        assert(s[i].0 != s[j].0);
    }
}

/// Compares two strings byte by byte.
pub fn str_eq(a: &str, b: &str) -> (r: bool)
    ensures
        r == (a@ == b@),
{
    let x = a.as_bytes();
    let y = b.as_bytes();
    proof {
        vstd::utf8::encode_utf8_decode_utf8(a@);
        vstd::utf8::encode_utf8_decode_utf8(b@);
    }
    if x.len() != y.len() {
        return false;
    }
    let mut i: usize = 0;
    while i < x.len()
        invariant
            x@ == vstd::utf8::encode_utf8(a@),
            y@ == vstd::utf8::encode_utf8(b@),
            x@.len() == y@.len(),
            i <= x@.len(),
            forall|j: int| 0 <= j < i ==> x@[j] == y@[j],
        decreases x@.len() - i,
    {
        if x[i] != y[i] {
            assert(x@[i as int] != y@[i as int]);
            assert(x@ != y@);
            return false;
        }
        i += 1;
    }
    assert(x@ =~= y@);
    true
}

/// A singly linked sequence of entries: pushing and popping happen at its front.
///
/// The entries are kept in a vector whose last element is the front, so that both
/// ends of a chain's life (push and pop) cost O(1).
pub struct List {
    nodes: Vec<Entry>,
}

impl View for List {
    type V = Chain;

    closed spec fn view(&self) -> Chain {
        Seq::new(self.nodes@.len(), |i: int| self.nodes@[self.nodes@.len() - 1 - i]@)
    }
}

impl List {
    pub fn new() -> (r: List)
        ensures
            r@ == Seq::<(Seq<char>, Seq<char>)>::empty(),
    {
        let r = List { nodes: Vec::new() };
        assert(r@ =~= Seq::<(Seq<char>, Seq<char>)>::empty());
        r
    }

    pub fn len(&self) -> (r: usize)
        ensures
            r == self@.len(),
    {
        self.nodes.len()
    }

    pub fn is_empty(&self) -> (r: bool)
        ensures
            r == (self@.len() == 0),
    {
        self.nodes.len() == 0
    }

    /// Puts `node` at the front.
    pub fn push(&mut self, node: Entry)
        ensures
            final(self)@ == seq![node@] + old(self)@,
    {
        let ghost e = node@;
        self.nodes.push(node);
        assert(self@ =~= seq![e] + old(self)@);
    }

    pub fn push_from_parts(&mut self, key: String, value: String)
        ensures
            final(self)@ == seq![(key@, value@)] + old(self)@,
    {
        self.push(Entry { key, value });
    }

    /// Takes the entry at the front.
    pub fn pop(&mut self) -> (r: Option<Entry>)
        ensures
            old(self)@.len() == 0 ==> r is None && final(self)@ == old(self)@,
            old(self)@.len() > 0 ==> r is Some && r.unwrap()@ == old(self)@[0]
                && final(self)@ == old(self)@.drop_first(),
    {
        let r = self.nodes.pop();
        if r.is_some() {
            assert(self@ =~= old(self)@.drop_first());
        } else {
            assert(self@ =~= old(self)@);
        }
        r
    }

    pub fn peek(&self) -> (r: Option<&Entry>)
        ensures
            self@.len() == 0 ==> r is None,
            self@.len() > 0 ==> r is Some && r.unwrap()@ == self@[0],
    {
        let n = self.nodes.len();
        if n == 0 {
            None
        } else {
            Some(&self.nodes[n - 1])
        }
    }

    pub fn peek_mut(&mut self) -> (r: Option<&mut Entry>)
        ensures
            old(self)@.len() == 0 ==> r is None && final(self)@ == old(self)@,
            old(self)@.len() > 0 ==> r is Some && (*r.unwrap())@ == old(self)@[0]
                && final(self)@ == old(self)@.update(0, (*final(r.unwrap()))@),
    {
        let n = self.nodes.len();
        if n == 0 {
            assert(self@ =~= old(self)@);
            None
        } else {
            Some(&mut self.nodes[n - 1])
        }
    }

    /// The entry at position `i` from the front.
    pub fn nodes_at(&self, i: usize) -> (r: &Entry)
        requires
            i < self@.len(),
        ensures
            r@ == self@[i as int],
    {
        let n = self.nodes.len();
        &self.nodes[n - 1 - i]
    }

    /// The value of the entry at position `i` from the front, to change in place.
    pub fn value_mut_at(&mut self, i: usize) -> (r: &mut String)
        requires
            i < old(self)@.len(),
        ensures
            (*r)@ == old(self)@[i as int].1,
            final(self)@ == old(self)@.update(i as int, (old(self)@[i as int].0, (*final(r))@)),
    {
        let n = self.nodes.len();
        &mut self.nodes[n - 1 - i].value
    }

    pub fn iter(&self) -> (r: IterRef<'_>)
        ensures
            r@ == (self@, 0int),
    {
        IterRef::new(self)
    }

    /// Position from the front of the first entry whose key is `key`.
    pub fn position(&self, key: &str) -> (r: Option<usize>)
        ensures
            r is None ==> !has_key(self@, key@),
            r matches Some(i) ==> first_with_key(self@, key@, i as int),
    {
        let n = self.nodes.len();
        let mut i: usize = 0;
        while i < n
            invariant
                n == self@.len(),
                i <= n,
                forall|j: int| 0 <= j < i ==> #[trigger] self@[j].0 != key@,
            decreases n - i,
        {
            if str_eq(self.nodes[n - 1 - i].key.as_str(), key) {
                return Some(i);
            }
            i += 1;
        }
        None
    }

    /// The first entry whose key is `key`.
    pub fn find(&self, key: &str) -> (r: Option<&Entry>)
        ensures
            r is None <==> !has_key(self@, key@),
            r matches Some(e) ==> exists|i: int| first_with_key(self@, key@, i) && e@ == self@[i],
    {
        match self.position(key) {
            None => None,
            Some(i) => {
                let n = self.nodes.len();
                Some(&self.nodes[n - 1 - i])
            },
        }
    }

    /// The value of the first entry whose key is `key`, to change in place.
    pub fn find_value_mut(&mut self, key: &str) -> (r: Option<&mut String>)
        ensures
            r is None <==> !has_key(old(self)@, key@),
            r is None ==> final(self)@ == old(self)@,
            r is Some ==> exists|i: int|
                first_with_key(old(self)@, key@, i) && (*r.unwrap())@ == old(self)@[i].1
                && final(self)@ == old(self)@.update(i, (key@, (*final(r.unwrap()))@)),
    {
        match self.position(key) {
            None => {
                assert(self@ =~= old(self)@);
                None
            },
            Some(i) => {
                let n = self.nodes.len();
                Some(&mut self.nodes[n - 1 - i].value)
            },
        }
    }

    /// Unlinks the first entry whose key is `key`.
    pub fn remove(&mut self, key: &str) -> (r: Option<Entry>)
        ensures
            r is None <==> !has_key(old(self)@, key@),
            r is None ==> final(self)@ == old(self)@,
            r is Some ==> exists|i: int|
                first_with_key(old(self)@, key@, i) && r.unwrap()@ == old(self)@[i]
                && final(self)@ == old(self)@.remove(i),
    {
        match self.position(key) {
            None => None,
            Some(i) => {
                let n = self.nodes.len();
                let e = self.nodes.remove(n - 1 - i);
                assert(self@ =~= old(self)@.remove(i as int));
                Some(e)
            },
        }
    }
}

impl Default for List {
    fn default() -> (r: List)
        ensures
            r@ == Seq::<(Seq<char>, Seq<char>)>::empty(),
    {
        List::new()
    }
}

/// Walks a list from its front, handing out each entry by reference.
pub struct IterRef<'a> {
    list: &'a List,
    pos: usize,
}

impl<'a> View for IterRef<'a> {
    /// The entries walked over, and how many of them have been handed out.
    type V = (Chain, int);

    closed spec fn view(&self) -> (Chain, int) {
        (self.list@, self.pos as int)
    }
}

impl<'a> IterRef<'a> {
    pub fn new(list: &'a List) -> (r: Self)
        ensures
            r@ == (list@, 0int),
    {
        IterRef { list, pos: 0 }
    }

    pub fn next(&mut self) -> (r: Option<&'a Entry>)
        requires
            old(self)@.1 <= old(self)@.0.len(),
        ensures
            final(self)@.0 == old(self)@.0,
            final(self)@.1 <= final(self)@.0.len(),
            old(self)@.1 == old(self)@.0.len() ==> r is None && final(self)@ == old(self)@,
            old(self)@.1 < old(self)@.0.len() ==> r is Some && r.unwrap()@ == old(self)@.0[old(self)@.1]
                && final(self)@.1 == old(self)@.1 + 1,
    {
        let n = self.list.nodes.len();
        if self.pos >= n {
            None
        } else {
            let e = &self.list.nodes[n - 1 - self.pos];
            self.pos = self.pos + 1;
            Some(e)
        }
    }
}

/// Empties a list from its front, handing out each entry.
pub struct IterOwn(List);

impl View for IterOwn {
    type V = Chain;

    closed spec fn view(&self) -> Chain {
        self.0@
    }
}

impl IterOwn {
    pub fn new(list: List) -> (r: Self)
        ensures
            r@ == list@,
    {
        IterOwn(list)
    }

    pub fn next(&mut self) -> (r: Option<Entry>)
        ensures
            old(self)@.len() == 0 ==> r is None && final(self)@ == old(self)@,
            old(self)@.len() > 0 ==> r is Some && r.unwrap()@ == old(self)@[0]
                && final(self)@ == old(self)@.drop_first(),
    {
        self.0.pop()
    }
}

} // verus!
