//! The broker's whole storage state, held in memory: one registry byte
//! file per entity kind (topics, producers, consumers) and one segmented
//! log per topic. Callers that want durability persist these bytes.
//!
//! A registry file may be absent (`None`), as on disk before anything
//! created it. A topic's log stands for its directory of segment files:
//! `segs[i]` is the segment whose id is `base + i`; ids below `base` have
//! been deleted by retention.

use vstd::prelude::*;
use vstd::utf8::encode_utf8;
use crate::registry::{Shape, RecView, records_opt, recs};
use crate::segment::events_opt;
use crate::names::{str_eq, lemma_encode_utf8_injective};

verus! {

/// Segment rotation threshold in bytes: a segment that has reached this
/// size is closed and a new active segment is started.
pub const ROTATE_THRESHOLD: u64 = 1000000000;

/// Record shape of the topics registry: no key field; trailing fields
/// `first_log_file` and `curr_log_file`.
pub open spec fn topic_shape() -> Shape {
    Shape { has_key: false, n_trailing: 2 }
}

/// Record shape of the producers registry: a key field, no trailing.
pub open spec fn producer_shape() -> Shape {
    Shape { has_key: true, n_trailing: 0 }
}

/// Record shape of the consumers registry: a key field; trailing fields
/// `log_file` and `log_offset` (the read cursor).
pub open spec fn consumer_shape() -> Shape {
    Shape { has_key: true, n_trailing: 2 }
}

pub fn mk_topic_shape() -> (s: Shape)
    ensures
        s == topic_shape(),
{
    Shape { has_key: false, n_trailing: 2 }
}

pub fn mk_producer_shape() -> (s: Shape)
    ensures
        s == producer_shape(),
{
    Shape { has_key: true, n_trailing: 0 }
}

pub fn mk_consumer_shape() -> (s: Shape)
    ensures
        s == consumer_shape(),
{
    Shape { has_key: true, n_trailing: 2 }
}

/// One topic's log directory: sequentially numbered segment files.
pub struct TopicLog {
    /// The directory name, which is the topic name.
    pub name: String,
    /// The id of `segs[0]`; segments with smaller ids have been deleted.
    pub base: u64,
    /// The segment files, ids `base ..`, in order.
    pub segs: Vec<Vec<u8>>,
}

/// The broker's storage state.
pub struct Broker {
    /// The topics registry file, if created.
    pub topics: Option<Vec<u8>>,
    /// The producers registry file, if created.
    pub producers: Option<Vec<u8>>,
    /// The consumers registry file, if created.
    pub consumers: Option<Vec<u8>>,
    /// One log per topic, aligned index for index with the live records
    /// of the topics registry.
    pub logs: Vec<TopicLog>,
}

/// The first log whose name is `name`, or `-1`.
pub open spec fn spec_log_index(logs: Seq<TopicLog>, name: Seq<char>) -> int
    decreases logs.len(),
{
    if logs.len() == 0 {
        -1
    } else if logs[0].name@ == name {
        0
    } else {
        let r = spec_log_index(logs.drop_first(), name);
        if r < 0 {
            -1
        } else {
            r + 1
        }
    }
}

pub proof fn lemma_log_index_at(logs: Seq<TopicLog>, name: Seq<char>, i: int)
    requires
        0 <= i < logs.len(),
        logs[i].name@ == name,
        forall|j: int| 0 <= j < i ==> (#[trigger] logs[j]).name@ != name,
    ensures
        spec_log_index(logs, name) == i,
    decreases logs.len(),
{
    if i > 0 {
        let t = logs.drop_first();
        assert(forall|j: int| 0 <= j < t.len() ==> #[trigger] t[j] == logs[j + 1]);
        lemma_log_index_at(t, name, i - 1);
    }
}

pub proof fn lemma_log_index_none(logs: Seq<TopicLog>, name: Seq<char>)
    requires
        forall|j: int| 0 <= j < logs.len() ==> (#[trigger] logs[j]).name@ != name,
    ensures
        spec_log_index(logs, name) == -1,
    decreases logs.len(),
{
    if logs.len() > 0 {
        assert(forall|j: int|
            0 <= j < logs.drop_first().len() ==> #[trigger] logs.drop_first()[j] == logs[j + 1]);
        lemma_log_index_none(logs.drop_first(), name);
    }
}

pub proof fn lemma_log_index_props(logs: Seq<TopicLog>, name: Seq<char>)
    requires
        spec_log_index(logs, name) >= 0,
    ensures
        0 <= spec_log_index(logs, name) < logs.len(),
        logs[spec_log_index(logs, name)].name@ == name,
        forall|j: int| 0 <= j < spec_log_index(logs, name) ==> (#[trigger] logs[j]).name@ != name,
    decreases logs.len(),
{
    if logs.len() > 0 && logs[0].name@ != name {
        let t = logs.drop_first();
        assert(forall|j: int| 0 <= j < t.len() ==> #[trigger] t[j] == logs[j + 1]);
        let r = spec_log_index(t, name);
        assert(r >= 0);
        lemma_log_index_props(t, name);
        assert(spec_log_index(logs, name) == r + 1);
        assert(logs[r + 1] == t[r]);
        assert forall|j: int| 0 <= j < spec_log_index(logs, name) implies (#[trigger] logs[j]).name@
            != name by {
            if j > 0 {
                assert(t[j - 1] == logs[j]);
            }
        }
    }
}

/// One topic's log agrees with its registry record: same name, segment
/// files `base ..= curr + 1` present and each well formed, and the
/// retention floor not past the active segment.
pub open spec fn topic_entry_wf(lg: TopicLog, r: RecView) -> bool {
    &&& encode_utf8(lg.name@) == r.name
    &&& r.trailing.len() == 2
    &&& r.trailing[0] <= r.trailing[1]
    &&& lg.base <= r.trailing[1]
    &&& lg.base + lg.segs@.len() == r.trailing[1] + 2
    &&& forall|s: int| 0 <= s < lg.segs@.len() ==> events_opt((#[trigger] lg.segs@[s])@) is Some
}

impl Broker {
    /// The decoded topics registry.
    pub open spec fn topic_recs(self) -> Seq<RecView> {
        recs(topic_shape(), self.topics->Some_0@)
    }

    /// The decoded producers registry.
    pub open spec fn producer_recs(self) -> Seq<RecView> {
        recs(producer_shape(), self.producers->Some_0@)
    }

    /// The decoded consumers registry.
    pub open spec fn consumer_recs(self) -> Seq<RecView> {
        recs(consumer_shape(), self.consumers->Some_0@)
    }

    /// Well-formedness: every registry file present decodes as a record
    /// layout; topics and logs correspond index for index; topic names
    /// are unique.
    pub open spec fn wf(self) -> bool {
        &&& (self.topics is Some ==> records_opt(topic_shape(), self.topics->Some_0@) is Some)
        &&& (self.producers is Some ==> records_opt(producer_shape(), self.producers->Some_0@)
            is Some)
        &&& (self.consumers is Some ==> records_opt(consumer_shape(), self.consumers->Some_0@)
            is Some)
        &&& (self.topics is None ==> self.logs@.len() == 0)
        &&& self.logs@.len() == if self.topics is Some {
            self.topic_recs().len()
        } else {
            0
        }
        &&& (forall|i: int|
            0 <= i < self.logs@.len() ==> topic_entry_wf(
                #[trigger] self.logs@[i],
                self.topic_recs()[i],
            ))
        &&& (forall|i: int, j: int|
            0 <= i < j < self.logs@.len() ==> (#[trigger] self.topic_recs()[i]).name != (
            #[trigger] self.topic_recs()[j]).name)
    }

    /// A fresh broker: no registry files, no topics.
    pub fn new() -> (b: Broker)
        ensures
            b.wf(),
            b.topics is None,
            b.producers is None,
            b.consumers is None,
            b.logs@.len() == 0,
    {
        Broker { topics: None, producers: None, consumers: None, logs: Vec::new() }
    }

    /// Whether the named topic's log directory exists.
    pub fn topic_exists(&self, name: &str) -> (r: bool)
        ensures
            r == (spec_log_index(self.logs@, name@) >= 0),
    {
        let n = self.logs.len();
        let mut i: usize = 0;
        while i < n
            invariant
                n == self.logs@.len(),
                0 <= i <= n,
                forall|j: int| 0 <= j < i ==> (#[trigger] self.logs@[j]).name@ != name@,
            decreases n - i,
        {
            if str_eq(self.logs[i].name.as_str(), name) {
                proof {
                    lemma_log_index_at(self.logs@, name@, i as int);
                }
                return true;
            }
            i = i + 1;
        }
        proof {
            lemma_log_index_none(self.logs@, name@);
        }
        false
    }

    /// Finds the log of the named topic.
    pub fn find_log(&self, name: &str) -> (r: Option<usize>)
        ensures
            match r {
                Some(i) => i as int == spec_log_index(self.logs@, name@),
                None => spec_log_index(self.logs@, name@) < 0,
            },
    {
        let n = self.logs.len();
        let mut i: usize = 0;
        while i < n
            invariant
                n == self.logs@.len(),
                0 <= i <= n,
                forall|j: int| 0 <= j < i ==> (#[trigger] self.logs@[j]).name@ != name@,
            decreases n - i,
        {
            if str_eq(self.logs[i].name.as_str(), name) {
                proof {
                    lemma_log_index_at(self.logs@, name@, i as int);
                }
                return Some(i);
            }
            i = i + 1;
        }
        proof {
            lemma_log_index_none(self.logs@, name@);
        }
        None
    }

    /// Whether the consumers registry file exists.
    pub fn consumers_exists(&self) -> (r: bool)
        ensures
            r == (self.consumers is Some),
    {
        self.consumers.is_some()
    }

    /// Whether the producers registry file exists.
    pub fn producers_exists(&self) -> (r: bool)
        ensures
            r == (self.producers is Some),
    {
        self.producers.is_some()
    }

    /// Creates the consumers registry file if it is absent.
    pub fn create_consumer_file(&mut self)
        requires
            old(self).wf(),
        ensures
            final(self).wf(),
            final(self).consumers is Some,
            old(self).consumers is Some ==> *final(self) == *old(self),
            old(self).consumers is None ==> final(self).consumers is Some
                && final(self).consumers->Some_0@ == Seq::<u8>::empty()
                && final(self).topics == old(self).topics
                && final(self).producers == old(self).producers
                && final(self).logs == old(self).logs,
    {
        if self.consumers.is_none() {
            self.consumers = Some(Vec::new());
            proof {
                assert(records_opt(consumer_shape(), self.consumers->Some_0@) == Some(
                    Seq::<RecView>::empty(),
                ));
            }
        }
    }

    /// Creates the producers registry file if it is absent.
    pub fn create_producers_file(&mut self)
        requires
            old(self).wf(),
        ensures
            final(self).wf(),
            final(self).producers is Some,
            old(self).producers is Some ==> *final(self) == *old(self),
            old(self).producers is None ==> final(self).producers is Some
                && final(self).producers->Some_0@ == Seq::<u8>::empty()
                && final(self).topics == old(self).topics
                && final(self).consumers == old(self).consumers
                && final(self).logs == old(self).logs,
    {
        if self.producers.is_none() {
            self.producers = Some(Vec::new());
            proof {
                assert(records_opt(producer_shape(), self.producers->Some_0@) == Some(
                    Seq::<RecView>::empty(),
                ));
            }
        }
    }
}

/// A negative lookup means no log bears the name.
pub proof fn lemma_log_index_neg(logs: Seq<TopicLog>, name: Seq<char>)
    requires
        spec_log_index(logs, name) < 0,
    ensures
        forall|j: int| 0 <= j < logs.len() ==> (#[trigger] logs[j]).name@ != name,
    decreases logs.len(),
{
    if logs.len() > 0 {
        assert(logs[0].name@ != name);
        let t = logs.drop_first();
        assert(forall|j: int| 0 <= j < t.len() ==> #[trigger] t[j] == logs[j + 1]);
        lemma_log_index_neg(t, name);
        assert forall|j: int| 0 <= j < logs.len() implies (#[trigger] logs[j]).name@ != name by {
            if j > 0 {
                assert(t[j - 1] == logs[j]);
            }
        }
    }
}

/// Under well-formedness, looking a name up among the logs and looking
/// its encoding up among the topic records agree.
pub proof fn lemma_lookup_align(logs: Seq<TopicLog>, rs: Seq<RecView>, name: Seq<char>)
    requires
        logs.len() == rs.len(),
        forall|i: int|
            0 <= i < logs.len() ==> (#[trigger] rs[i]).name == encode_utf8(logs[i].name@),
    ensures
        spec_log_index(logs, name) == crate::registry::first_name_idx(rs, encode_utf8(name)),
    decreases logs.len(),
{
    if logs.len() > 0 {
        assert((logs[0].name@ == name) == (rs[0].name == encode_utf8(name))) by {
            if rs[0].name == encode_utf8(name) {
                lemma_encode_utf8_injective(logs[0].name@, name);
            }
        }
        let lt = logs.drop_first();
        let rt = rs.drop_first();
        assert(forall|j: int| 0 <= j < lt.len() ==> #[trigger] lt[j] == logs[j + 1]);
        assert(forall|j: int| 0 <= j < rt.len() ==> #[trigger] rt[j] == rs[j + 1]);
        lemma_lookup_align(lt, rt, name);
    }
}

} // verus!
