//! Matching core of a single-instrument exchange: price levels with FIFO
//! queues, side ladders ordered by price priority, and a matching engine with
//! GTC, IOC and FOK time-in-force semantics.
use vstd::prelude::*;

pub mod conf;
pub mod kernel;

use crate::conf::yaml::YamlValue;
use crate::conf::{indexed, prepared, Environment};
use vstd::string::*;
use crate::kernel::direct::{DirectOrderBook, DirectOrderBookFactory};
use crate::kernel::{MatchError, Order, OrderBookFactory, RestingOrder, Trade};

verus! {

/// Property that lists the active configuration profiles.
pub open spec fn profiles_key() -> Seq<char> {
    "application.profiles"@
}

/// Document of the configuration profile `p`.
pub open spec fn profile_path(p: Seq<char>) -> Seq<char> {
    "resources/application-"@ + p + ".yaml"@
}

/// `files` names the documents of the profiles that `env` lists, in order.
pub open spec fn lists_profiles(env: Environment, files: Seq<String>) -> bool {
    &&& forall|k: int| 0 <= k < files.len() ==> #[trigger] names_profile(env, files[k], k)
    &&& env.property(indexed(profiles_key(), files.len() as nat)) is None || files.len() == env.settings().len()
}

/// `file` names the document of the profile at `k` of the list that `env` holds.
pub open spec fn names_profile(env: Environment, file: String, k: int) -> bool {
    match env.property(indexed(profiles_key(), k as nat)) {
        Some(p) => file@ == profile_path(p),
        None => false,
    }
}

/// Document of the configuration profile `p`.
fn profile_file(p: &str) -> (r: String)
    ensures
        r@ == profile_path(p@),
{
    proof {
        reveal_strlit("resources/application-");
        reveal_strlit(".yaml");
    }
    String::from_str("resources/application-").concat(p).concat(".yaml")
}

/// A market: an instrument code and its book.
pub struct Market {
    pub code: String,
    pub book: DirectOrderBook,
}

/// The matching server: configuration, and one order book per instrument.
pub struct Server {
    environment: Environment,
    order_book_factory: DirectOrderBookFactory,
    order_books: Vec<Market>,
}

impl Server {
    /// Codes of the markets, in creation order.
    pub closed spec fn codes(&self) -> Seq<Seq<char>> {
        self.order_books@.map_values(|m: Market| m.code@)
    }

    /// Every book is well formed and no code is used twice.
    pub closed spec fn wf(&self) -> bool {
        &&& forall|i: int| 0 <= i < self.order_books@.len() ==> (#[trigger] self.order_books@[i]).book.wf()
        &&& forall|i: int, j: int|
            0 <= i < self.order_books@.len() && 0 <= j < self.order_books@.len() && i != j
                ==> (#[trigger] self.order_books@[i]).code@ != (#[trigger] self.order_books@[j]).code@
    }

    /// The books of the markets, in creation order.
    pub closed spec fn books(&self) -> Seq<DirectOrderBook> {
        self.order_books@.map_values(|m: Market| m.book)
    }

    /// The configuration.
    pub closed spec fn env(&self) -> Environment {
        self.environment
    }

    pub fn new() -> (r: Server)
        ensures
            r.wf(),
            r.codes().len() == 0,
            r.books().len() == 0,
            r.env().settings().len() == 0,
            r.env().extensions() == seq!["yaml"@, "yml"@],
    {
        let r = Server {
            order_books: Vec::new(),
            environment: Environment::new(),
            order_book_factory: DirectOrderBookFactory::new(),
        };
        proof {
            assert(r.codes() =~= Seq::<Seq<char>>::empty());
            assert(r.books() =~= Seq::<DirectOrderBook>::empty());
        }
        r
    }

    /// Position of the market `code`.
    fn find_market(&self, code: &String) -> (r: Option<usize>)
        ensures
            match r {
                Some(i) => i < self.codes().len() && self.codes()[i as int] == code@,
                None => !self.codes().contains(code@),
            },
    {
        let mut i: usize = 0;
        while i < self.order_books.len()
            invariant
                0 <= i <= self.order_books@.len(),
                forall|k: int| 0 <= k < i ==> self.codes()[k] != code@,
            decreases self.order_books@.len() - i,
        {
            proof {
                assert(self.codes()[i as int] == self.order_books@[i as int].code@);
            }
            if crate::conf::string_eq(&self.order_books[i].code, code) {
                return Some(i);
            }
            i = i + 1;
        }
        None
    }

    /// Creates an empty book for `code`. A second request for a code that
    /// has a book is ignored and returns false.
    pub fn create_market(&mut self, code: String) -> (r: bool)
        requires
            old(self).wf(),
        ensures
            final(self).wf(),
            r == !old(self).codes().contains(code@),
            r ==> final(self).codes() == old(self).codes().push(code@),
            r ==> final(self).books().len() == old(self).books().len() + 1 && final(self).books().drop_last()
                == old(self).books() && final(self).books().last().bids_view().len() == 0
                && final(self).books().last().asks_view().len() == 0 && final(self).books().last().sequence_view() == 1,
            !r ==> final(self).codes() == old(self).codes() && final(self).books() == old(self).books(),
            final(self).env() == old(self).env(),
    {
        match self.find_market(&code) {
            Some(_) => false,
            None => {
                let ghost c = code@;
                let book = self.order_book_factory.create();
                self.order_books.push(Market { code, book });
                proof {
                    assert(self.codes() =~= old(self).codes().push(c));
                    assert(self.books().drop_last() =~= old(self).books());
                    assert(self.books().last() == book);
                    let n = old(self).order_books@.len();
                    assert forall|i: int| 0 <= i < n implies self.codes()[i] != c by {
                        assert(old(self).codes()[i] == self.codes()[i]);
                    }
                    assert forall|i: int, j: int|
                        0 <= i < self.order_books@.len() && 0 <= j < self.order_books@.len() && i != j
                            implies (#[trigger] self.order_books@[i]).code@ != (#[trigger] self.order_books@[j]).code@ by {
                        if i == n {
                            assert(self.codes()[j] == self.order_books@[j].code@);
                        } else if j == n {
                            assert(self.codes()[i] == self.order_books@[i].code@);
                        } else {
                            assert(self.order_books@[i] == old(self).order_books@[i]);
                            assert(self.order_books@[j] == old(self).order_books@[j]);
                        }
                    }
                }
                true
            },
        }
    }

    /// Routes `order` to the book of `code`.
    pub fn place_order(&mut self, code: &String, order: Order) -> (r: Result<Vec<Trade>, MatchError>)
        requires
            old(self).wf(),
        ensures
            final(self).wf(),
            final(self).codes() == old(self).codes(),
            final(self).env() == old(self).env(),
            !old(self).codes().contains(code@) ==> r == Err::<Vec<Trade>, MatchError>(MatchError::UnknownMarket)
                && final(self).books() == old(self).books(),
            final(self).books().len() == old(self).books().len(),
            forall|i: int|
                0 <= i < old(self).codes().len() && old(self).codes()[i] == code@ ==> DirectOrderBook::place_post(
                    old(self).books()[i],
                    final(self).books()[i],
                    order,
                    r,
                ) && forall|k: int|
                    0 <= k < old(self).books().len() && k != i ==> final(self).books()[k] == old(self).books()[k],
    {
        match self.find_market(code) {
            None => Err(MatchError::UnknownMarket),
            Some(i) => {
                let mut m = self.order_books.remove(i);
                let r = m.book.place_order(order);
                self.order_books.insert(i, m);
                proof {
                    assert(self.codes() =~= old(self).codes());
                    assert forall|k: int| 0 <= k < self.order_books@.len() && k != i implies self.order_books@[k]
                        == old(self).order_books@[k] by {}
                    assert(self.books()[i as int] == m.book);
                    assert forall|j: int| 0 <= j < old(self).codes().len() && old(self).codes()[j] == code@ implies j == i by {
                        if j != i {
                            assert(old(self).order_books@[j].code@ == old(self).codes()[j]);
                            assert(old(self).order_books@[i as int].code@ == old(self).codes()[i as int]);
                        }
                    }
                }
                r
            },
        }
    }

    /// Cancels the order `order_id` in the book of `code`.
    pub fn cancel_order(&mut self, code: &String, order_id: u64) -> (r: Result<RestingOrder, MatchError>)
        requires
            old(self).wf(),
        ensures
            final(self).wf(),
            final(self).codes() == old(self).codes(),
            final(self).env() == old(self).env(),
            !old(self).codes().contains(code@) ==> r == Err::<RestingOrder, MatchError>(MatchError::UnknownMarket)
                && final(self).books() == old(self).books(),
            final(self).books().len() == old(self).books().len(),
            forall|i: int|
                0 <= i < old(self).codes().len() && old(self).codes()[i] == code@ ==> DirectOrderBook::cancel_post(
                    old(self).books()[i],
                    final(self).books()[i],
                    order_id,
                    r,
                ) && forall|k: int|
                    0 <= k < old(self).books().len() && k != i ==> final(self).books()[k] == old(self).books()[k],
    {
        match self.find_market(code) {
            None => Err(MatchError::UnknownMarket),
            Some(i) => {
                let mut m = self.order_books.remove(i);
                let r = m.book.cancel_order(order_id);
                self.order_books.insert(i, m);
                proof {
                    assert(self.codes() =~= old(self).codes());
                    assert forall|k: int| 0 <= k < self.order_books@.len() && k != i implies self.order_books@[k]
                        == old(self).order_books@[k] by {}
                    assert(self.books()[i as int] == m.book);
                    assert forall|j: int| 0 <= j < old(self).codes().len() && old(self).codes()[j] == code@ implies j == i by {
                        if j != i {
                            assert(old(self).order_books@[j].code@ == old(self).codes()[j]);
                            assert(old(self).order_books@[i as int].code@ == old(self).codes()[i as int]);
                        }
                    }
                }
                r
            },
        }
    }

    /// Reads the main configuration document and returns the names of the
    /// profile documents that it lists under `application.profiles`, to be
    /// read next with [`Server::load_yaml_document`].
    pub fn run(&mut self, application: &YamlValue) -> (r: Vec<String>)
        requires
            old(self).wf(),
        ensures
            final(self).wf(),
            final(self).codes() == old(self).codes(),
            final(self).books() == old(self).books(),
            exists|res: Result<(), String>| Environment::read_post(old(self).env(), final(self).env(), *application, res),
            lists_profiles(final(self).env(), r@),
    {
        proof {
            reveal_strlit("application.profiles");
            assert(prepared("application.profiles"@) == profiles_key());
        }
        let res = self.environment.read_yaml(application);
        let profiles = self.environment.get_properties("application.profiles");
        let mut files: Vec<String> = Vec::new();
        let mut i: usize = 0;
        while i < profiles.len()
            invariant
                0 <= i <= profiles@.len(),
                files@.len() == i,
                forall|k: int| 0 <= k < i ==> (#[trigger] files@[k])@ == profile_path(profiles@[k]@),
                forall|k: int|
                    0 <= k < profiles@.len() ==> self.env().property(indexed(profiles_key(), k as nat)) == Some(
                        (#[trigger] profiles@[k])@,
                    ),
                self.env().property(indexed(profiles_key(), profiles@.len() as nat)) is None
                    || profiles@.len() == self.env().settings().len(),
            decreases profiles@.len() - i,
        {
            files.push(profile_file(profiles[i].as_str()));
            i = i + 1;
        }
        proof {
            assert forall|k: int| 0 <= k < files@.len() implies #[trigger] names_profile(self.env(), files@[k], k) by {
                let v = profiles@[k]@;
                assert(self.env().property(indexed(profiles_key(), k as nat)) == Some(v));
                assert(files@[k]@ == profile_path(v));
            }
            assert(files@.len() == profiles@.len());
            assert(self.env().property(indexed(profiles_key(), files@.len() as nat)) is None
                || files@.len() == self.env().settings().len());
            assert(lists_profiles(self.env(), files@));
            assert(Environment::read_post(old(self).env(), self.env(), *application, res));
        }
        files
    }

    /// Reads one more configuration document into the environment.
    pub fn load_yaml_document(&mut self, doc: &YamlValue) -> (r: Result<(), String>)
        requires
            old(self).wf(),
        ensures
            final(self).wf(),
            final(self).codes() == old(self).codes(),
            final(self).books() == old(self).books(),
            Environment::read_post(old(self).env(), final(self).env(), *doc, r),
    {
        self.environment.read_yaml(doc)
    }

    /// Applies command-line overrides `--name=value` to the configuration.
    pub fn apply_command_args(&mut self, args: &Vec<String>)
        requires
            old(self).wf(),
        ensures
            final(self).wf(),
            final(self).codes() == old(self).codes(),
            final(self).books() == old(self).books(),
            final(self).env().extensions() == old(self).env().extensions(),
            final(self).env().settings() == old(self).env().settings() + crate::conf::args_settings(
                args@.map_values(|a: String| a@),
            ),
    {
        self.environment.parse_command_args(args);
    }

    /// The configuration.
    pub fn environment(&self) -> (r: &Environment)
        ensures
            *r == self.env(),
    {
        &self.environment
    }
}

} // verus!
