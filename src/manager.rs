use vstd::prelude::*;

verus! {

/// Name of a stream: compared byte for byte, never normalised.
#[derive(Debug, PartialEq, Eq, Hash)]
pub struct Symbol(pub String);

impl View for Symbol {
    type V = Seq<char>;

    open spec fn view(&self) -> Seq<char> {
        self.0@
    }
}

/// Query of the stats of one symbol over the window of the last `10^k`
/// observations.
pub struct StatsRequest {
    pub symbol: String,
    pub k: u32,
}

/// Where a command goes: the worker slot of its symbol, and whether that
/// worker has just been created and must be started.
pub struct Route {
    pub worker: usize,
    pub is_new: bool,
}

/// Registry of the symbols seen so far; the symbol at index `i` is served by
/// worker `i`. It only grows.
pub struct SymbolManager {
    symbols: Vec<Symbol>,
}

pub open spec fn no_duplicates(names: Seq<Seq<char>>) -> bool {
    forall|i: int, j: int| 0 <= i < names.len() && 0 <= j < names.len() && i != j ==> names[i] != names[j]
}

/// Slot of `s` among `names` (its last occurrence), or -1 when absent.
pub open spec fn slot_of(names: Seq<Seq<char>>, s: Seq<char>) -> int
    decreases names.len(),
{
    if names.len() == 0 {
        -1
    } else if names.last() == s {
        names.len() - 1
    } else {
        slot_of(names.drop_last(), s)
    }
}

/// `slot_of` finds a name exactly when it is there, and among distinct names
/// it is the only slot that holds it.
pub proof fn lemma_slot_of(names: Seq<Seq<char>>, s: Seq<char>)
    ensures
        -1 <= slot_of(names, s) < names.len(),
        (slot_of(names, s) >= 0) == names.contains(s),
        slot_of(names, s) >= 0 ==> names[slot_of(names, s)] == s,
        no_duplicates(names) ==> forall|i: int| 0 <= i < names.len() && #[trigger] names[i] == s ==> slot_of(names, s) == i,
    decreases names.len(),
{
    if names.len() > 0 {
        let init = names.drop_last();
        lemma_slot_of(init, s);
        if names.last() != s {
            if init.contains(s) {
                let i = choose|i: int| 0 <= i < init.len() && init[i] == s;
                assert(names[i] == s);
            }
            if names.contains(s) {
                let i = choose|i: int| 0 <= i < names.len() && names[i] == s;
                assert(i != names.len() - 1);
                assert(init[i] == s);
            }
            if no_duplicates(names) {
                assert forall|i: int, j: int| 0 <= i < init.len() && 0 <= j < init.len() && i != j implies init[i] != init[j] by {
                    assert(init[i] == names[i] && init[j] == names[j]);
                }
                assert forall|i: int| 0 <= i < names.len() && #[trigger] names[i] == s implies slot_of(names, s) == i by {
                    assert(init[i] == names[i]);
                }
            }
        } else {
            assert(names[names.len() - 1] == s);
        }
    }
}

impl View for SymbolManager {
    type V = Seq<Seq<char>>;

    /// Names of the registered symbols, by worker slot.
    closed spec fn view(&self) -> Seq<Seq<char>> {
        self.symbols@.map_values(|s: Symbol| s@)
    }
}

impl SymbolManager {
    pub open spec fn wf(&self) -> bool {
        no_duplicates(self@)
    }

    pub fn new() -> (r: SymbolManager)
        ensures
            r.wf(),
            r@ == Seq::<Seq<char>>::empty(),
    {
        let r = SymbolManager { symbols: Vec::new() };
        proof {
            assert(r@ =~= Seq::<Seq<char>>::empty());
        }
        r
    }

    /// Number of registered symbols.
    pub fn len(&self) -> (r: usize)
        ensures
            r == self@.len(),
    {
        self.symbols.len()
    }

    /// The worker slot of `symbol`, if it is registered.
    pub fn find(&self, symbol: &Symbol) -> (r: Option<usize>)
        ensures
            match r {
                Some(i) => i < self@.len() && self@[i as int] == symbol@,
                None => !self@.contains(symbol@),
            },
    {
        let mut i: usize = 0;
        while i < self.symbols.len()
            invariant
                i <= self.symbols@.len(),
                forall|m: int| 0 <= m < i ==> self@[m] != symbol@,
            decreases self.symbols@.len() - i,
        {
            if self.symbols[i].0 == symbol.0 {
                return Some(i);
            }
            i = i + 1;
        }
        None
    }

    /// Routes a command for `symbol`: registers the symbol on first sight, and
    /// otherwise leaves the registry as it is.
    pub fn route(&mut self, symbol: &Symbol) -> (r: Route)
        requires
            old(self).wf(),
        ensures
            final(self).wf(),
            r.worker < final(self)@.len(),
            r.worker == slot_of(final(self)@, symbol@),
            final(self)@[r.worker as int] == symbol@,
            r.is_new == !old(self)@.contains(symbol@),
            r.is_new ==> final(self)@ == old(self)@.push(symbol@) && r.worker == old(self)@.len(),
            !r.is_new ==> final(self)@ == old(self)@,
    {
        match self.find(symbol) {
            Some(i) => {
                proof {
                    lemma_slot_of(self@, symbol@);
                }
                Route { worker: i, is_new: false }
            },
            None => {
                let n = self.symbols.len();
                self.symbols.push(Symbol(symbol.0.clone()));
                proof {
                    assert(self@ =~= old(self)@.push(symbol@));
                    assert(self@.last() == symbol@);
                    assert forall|i: int, j: int| 0 <= i < self@.len() && 0 <= j < self@.len() && i != j implies self@[i] != self@[j] by {
                        if i == n {
                            assert(old(self)@[j] == self@[j]);
                        } else if j == n {
                            assert(old(self)@[i] == self@[i]);
                        }
                    }
                }
                Route { worker: n, is_new: true }
            },
        }
    }
}

} // verus!
