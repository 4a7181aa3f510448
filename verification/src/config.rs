//! The settings that the rules read.
use vstd::prelude::*;
use crate::text::same;

verus! {

/// One registry behind the proxy.
pub struct RegistryMapping {
    /// Whether the registry is served at all.
    pub enabled: bool,
    /// The host that serves the registry's `v2` API.
    pub upstream: String,
    /// The host and path of the registry's token endpoint.
    pub auth_host: String,
    /// The account that the proxy logs in with; empty for none.
    pub username: String,
    /// The password of that account.
    pub password: String,
}

/// What a `RegistryMapping` holds.
pub struct MappingView {
    pub enabled: bool,
    pub upstream: Seq<char>,
    pub auth_host: Seq<char>,
    pub username: Seq<char>,
    pub password: Seq<char>,
}

impl View for RegistryMapping {
    type V = MappingView;

    open spec fn view(&self) -> MappingView {
        MappingView {
            enabled: self.enabled,
            upstream: self.upstream@,
            auth_host: self.auth_host@,
            username: self.username@,
            password: self.password@,
        }
    }
}

/// The registries behind the proxy, by the domain that image names begin with.
/// No domain occurs twice. The entries keep their order, which is the order in
/// which the rules try them.
pub struct Registries {
    entries: Vec<(String, RegistryMapping)>,
}

/// The index of the entry of a domain, or the number of entries.
pub open spec fn slot(entries: Seq<(Seq<char>, MappingView)>, domain: Seq<char>) -> int
    decreases entries.len(),
{
    if entries.len() == 0 || entries[0].0 == domain {
        0
    } else {
        1 + slot(entries.drop_first(), domain)
    }
}

/// The mapping of a domain, where it has one.
pub open spec fn lookup(
    entries: Seq<(Seq<char>, MappingView)>,
    domain: Seq<char>,
) -> Option<MappingView> {
    if 0 <= slot(entries, domain) < entries.len() {
        Some(entries[slot(entries, domain)].1)
    } else {
        None
    }
}

/// The entries after a mapping has been given to a domain: in the place of the
/// domain's earlier mapping, or at the end.
pub open spec fn inserted(
    entries: Seq<(Seq<char>, MappingView)>,
    domain: Seq<char>,
    mapping: MappingView,
) -> Seq<(Seq<char>, MappingView)> {
    if 0 <= slot(entries, domain) < entries.len() {
        entries.update(slot(entries, domain), (domain, mapping))
    } else {
        entries.push((domain, mapping))
    }
}

/// Whether no domain occurs twice.
pub open spec fn distinct(entries: Seq<(Seq<char>, MappingView)>) -> bool {
    forall|i: int, j: int|
        0 <= i < j < entries.len() ==> (#[trigger] entries[i]).0 != (#[trigger] entries[j]).0
}

/// `slot` is the index of an entry of the domain that has none before it.
pub proof fn lemma_slot_at(entries: Seq<(Seq<char>, MappingView)>, domain: Seq<char>, k: int)
    requires
        0 <= k <= entries.len(),
        k < entries.len() ==> entries[k].0 == domain,
        forall|j: int| 0 <= j < k ==> (#[trigger] entries[j]).0 != domain,
    ensures
        slot(entries, domain) == k,
    decreases entries.len(),
{
    if k > 0 {
        assert(entries[0].0 != domain);
        assert forall|j: int| 0 <= j < k - 1 implies (#[trigger] entries.drop_first()[j]).0
            != domain by {
            assert(entries[j + 1].0 != domain);
        }
        lemma_slot_at(entries.drop_first(), domain, k - 1);
    }
}

/// What `slot` says of the entries.
pub proof fn lemma_slot(entries: Seq<(Seq<char>, MappingView)>, domain: Seq<char>)
    ensures
        0 <= slot(entries, domain) <= entries.len(),
        slot(entries, domain) < entries.len() ==> entries[slot(entries, domain)].0 == domain,
        forall|j: int|
            0 <= j < slot(entries, domain) ==> (#[trigger] entries[j]).0 != domain,
    decreases entries.len(),
{
    if entries.len() > 0 && entries[0].0 != domain {
        let rest = entries.drop_first();
        lemma_slot(rest, domain);
        assert forall|j: int| 0 <= j < slot(entries, domain) implies (#[trigger] entries[j]).0
            != domain by {
            if j > 0 {
                assert(rest[j - 1].0 != domain);
            }
        }
    }
}

/// A domain keeps the mapping that it was given, and every other domain keeps
/// its own.
pub proof fn law_insert_then_lookup(
    entries: Seq<(Seq<char>, MappingView)>,
    domain: Seq<char>,
    mapping: MappingView,
    other: Seq<char>,
)
    ensures
        lookup(inserted(entries, domain, mapping), domain) == Some(mapping),
        other != domain ==> lookup(inserted(entries, domain, mapping), other) == lookup(
            entries,
            other,
        ),
{
    let next = inserted(entries, domain, mapping);
    lemma_slot(entries, domain);
    let k = slot(entries, domain);
    assert forall|j: int| 0 <= j < k implies (#[trigger] next[j]).0 != domain by {
        assert(entries[j].0 != domain);
    }
    lemma_slot_at(next, domain, k);
    if other != domain {
        lemma_slot(entries, other);
        let m = slot(entries, other);
        assert forall|j: int| 0 <= j < m implies (#[trigger] next[j]).0 != other by {
            assert(j < entries.len() ==> entries[j].0 != other);
        }
        if m < entries.len() {
            lemma_slot_at(next, other, m);
        } else {
            assert forall|j: int| 0 <= j < next.len() implies (#[trigger] next[j]).0 != other by {
                assert(j < entries.len() ==> entries[j].0 != other);
            }
            lemma_slot_at(next, other, next.len() as int);
        }
    }
}

/// What entries hold.
spec fn entry_views(entries: Seq<(String, RegistryMapping)>) -> Seq<(Seq<char>, MappingView)> {
    entries.map_values(|entry: (String, RegistryMapping)| (entry.0@, entry.1@))
}

impl View for Registries {
    type V = Seq<(Seq<char>, MappingView)>;

    closed spec fn view(&self) -> Seq<(Seq<char>, MappingView)> {
        entry_views(self.entries@)
    }
}

impl Registries {
    #[verifier::type_invariant]
    spec fn has_distinct_domains(self) -> bool {
        distinct(entry_views(self.entries@))
    }

    /// No registries.
    pub fn new() -> (r: Self)
        ensures
            r@ == Seq::<(Seq<char>, MappingView)>::empty(),
            distinct(r@),
    {
        let r = Registries { entries: Vec::new() };
        assert(r@ =~= Seq::empty());
        r
    }

    /// The number of registries.
    pub fn len(&self) -> (n: usize)
        ensures
            n == self@.len(),
    {
        self.entries.len()
    }

    /// The domain of the registry at an index.
    pub fn domain(&self, i: usize) -> (r: &str)
        requires
            i < self@.len(),
        ensures
            r@ == self@[i as int].0,
    {
        self.entries[i].0.as_str()
    }

    /// The mapping of the registry at an index.
    pub fn mapping(&self, i: usize) -> (r: &RegistryMapping)
        requires
            i < self@.len(),
        ensures
            r@ == self@[i as int].1,
    {
        &self.entries[i].1
    }

    /// The index of the entry of a domain, or the number of entries.
    fn find(&self, domain: &str) -> (at: usize)
        ensures
            at == slot(self@, domain@),
            at <= self@.len(),
    {
        let mut i: usize = 0;
        while i < self.len()
            invariant
                i <= self@.len(),
                forall|j: int| 0 <= j < i ==> (#[trigger] self@[j]).0 != domain@,
            decreases self@.len() - i,
        {
            if same(self.domain(i), domain) {
                proof {
                    lemma_slot_at(self@, domain@, i as int);
                }
                return i;
            }
            i += 1;
        }
        proof {
            lemma_slot_at(self@, domain@, i as int);
        }
        i
    }

    /// The mapping of a domain, where it has one.
    pub fn get(&self, domain: &str) -> (r: Option<&RegistryMapping>)
        ensures
            match r {
                Some(mapping) => lookup(self@, domain@) == Some(mapping@),
                None => lookup(self@, domain@) is None,
            },
    {
        let at: usize = self.find(domain);
        if at < self.len() {
            Some(self.mapping(at))
        } else {
            None
        }
    }

    /// Gives a domain its mapping: in the place of an earlier one, or at the end.
    pub fn insert(&mut self, domain: String, mapping: RegistryMapping)
        ensures
            final(self)@ == inserted(old(self)@, domain@, mapping@),
            distinct(final(self)@),
    {
        let at: usize = self.find(domain.as_str());
        let ghost before = self@;
        let ghost key = domain@;
        let ghost value = mapping@;
        proof {
            use_type_invariant(&*self);
            lemma_slot(before, key);
        }
        let mut entries: Vec<(String, RegistryMapping)> = Vec::new();
        std::mem::swap(&mut entries, &mut self.entries);
        if at < entries.len() {
            entries.set(at, (domain, mapping));
        } else {
            entries.push((domain, mapping));
        }
        proof {
            let next = entry_views(entries@);
            assert(next =~= inserted(before, key, value));
            assert forall|i: int, j: int| 0 <= i < j < next.len() implies (#[trigger] next[i]).0
                != (#[trigger] next[j]).0 by {
                assert(i < before.len() && j < before.len() ==> before[i].0 != before[j].0);
            }
        }
        self.entries = entries;
    }
}

/// The settings of the image registries.
pub struct DockerConfig {
    pub registries: Registries,
}

/// The limits on what the proxy passes on.
pub struct RequestLimit {
    /// The largest response body in MiB; no limit where it is not positive.
    pub limit_size: i64,
}

/// The settings of the proxy.
pub struct Config {
    pub docker: DockerConfig,
    pub request_limit: RequestLimit,
}

} // verus!
