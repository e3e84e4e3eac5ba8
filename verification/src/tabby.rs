//! The Tabby side of the conversion: the target document model (profiles,
//! groups, preserved unknown fields) and the merge engine that imports
//! parsed records without duplicating existing entries.

use vstd::prelude::*;

use crate::protocols::{
    spec_protocol_from, spec_resolve_port, resolve_port, ConnectionProtocols,
};
use crate::remmina::RemminaProfile;
use crate::text::{lower_of, lowercase_str};
use crate::yaml::empty_mapping;

verus! {

/// The nested options block of a profile.
#[derive(Debug, Clone)]
pub struct ProfileOptions {
    pub host: Option<String>,
    pub user: Option<String>,
    pub algorithms: Option<serde_yaml_ng::Value>,
    pub input: Option<serde_yaml_ng::Value>,
    pub auth: Option<String>,
    pub port: u16,
}

/// One profile of the target document. The field holding the profile's
/// type tag is named `profile_type` here; it is written to the document
/// under the key `type`.
#[derive(Debug, Clone)]
pub struct Profile {
    pub profile_type: String,
    pub name: String,
    pub icon: String,
    pub options: ProfileOptions,
    pub weight: i32,
    pub color: String,
    pub group: Option<String>,
    pub id: Option<String>,
}

/// One named group of the target document.
#[derive(Debug, Clone)]
pub struct Group {
    pub id: String,
    pub name: String,
}

/// The target document: a version number, the profiles, the optional group
/// list, and every unrecognized top-level field, preserved verbatim for a
/// later lossless write. The preserved fields come from a mapping, so their
/// keys are pairwise distinct (`extra_keys_unique`); nothing here adds,
/// removes or reorders them.
#[derive(Debug, Clone)]
pub struct TabbyConfig {
    pub version: u32,
    pub profiles: Vec<Profile>,
    pub groups: Option<Vec<Group>>,
    pub extra: Vec<(String, serde_yaml_ng::Value)>,
}

impl Default for ProfileOptions {
    /// Empty options: every field absent and port 0.
    fn default() -> (r: Self)
        ensures
            r.host is None,
            r.user is None,
            r.algorithms is None,
            r.input is None,
            r.auth is None,
            r.port == 0,
    {
        ProfileOptions { host: None, user: None, algorithms: None, input: None, auth: None, port: 0 }
    }
}

impl Profile {
    fn default_type() -> (r: String)
        ensures
            r@ == "ssh"@,
    {
        "ssh".to_owned()
    }

    fn default_icon() -> (r: String)
        ensures
            r@ == "fas fa-terminal"@,
    {
        "fas fa-terminal".to_owned()
    }

    fn default_weight() -> (r: i32)
        ensures
            r == -1,
    {
        -1
    }

    fn default_color() -> (r: String)
        ensures
            r@ == "#FF9C00"@,
    {
        "#FF9C00".to_owned()
    }
}

impl Default for Profile {
    /// A blank profile carrying the default type, icon, weight and color.
    fn default() -> (r: Self)
        ensures
            r.profile_type@ == "ssh"@,
            r.name@ == Seq::<char>::empty(),
            r.icon@ == "fas fa-terminal"@,
            r.options.host is None,
            r.options.user is None,
            r.options.algorithms is None,
            r.options.input is None,
            r.options.auth is None,
            r.options.port == 0,
            r.weight == -1,
            r.color@ == "#FF9C00"@,
            r.group is None,
            r.id is None,
    {
        Profile {
            profile_type: Profile::default_type(),
            name: String::new(),
            icon: Profile::default_icon(),
            options: ProfileOptions::default(),
            weight: Profile::default_weight(),
            color: Profile::default_color(),
            group: None,
            id: None,
        }
    }
}

/// Whether some profile carries exactly this name.
pub open spec fn has_profile_named(profiles: Seq<Profile>, name: Seq<char>) -> bool {
    exists|i: int| 0 <= i < profiles.len() && profiles[i].name@ == name
}

/// Whether some profile carries exactly this identifier.
pub open spec fn has_profile_id(profiles: Seq<Profile>, id: Seq<char>) -> bool {
    exists|i: int| 0 <= i < profiles.len() && profiles[i].id.deep_view() == Some(id)
}

/// No two profiles share a name.
pub open spec fn profile_names_unique(profiles: Seq<Profile>) -> bool {
    forall|i: int, j: int|
        0 <= i < j < profiles.len() ==> profiles[i].name@ != profiles[j].name@
}

/// No two profiles share an identifier (absent identifiers aside).
pub open spec fn profile_ids_unique(profiles: Seq<Profile>) -> bool {
    forall|i: int, j: int|
        0 <= i < j < profiles.len() && profiles[i].id.deep_view() is Some
            ==> profiles[i].id.deep_view() != profiles[j].id.deep_view()
}

/// The group list of a document; a document without one has no groups.
pub open spec fn groups_seq(groups: Option<Vec<Group>>) -> Seq<Group> {
    match groups {
        Some(v) => v@,
        None => Seq::empty(),
    }
}

/// The identifier of the first group carrying exactly this name, if any.
pub open spec fn spec_find_group_id(groups: Seq<Group>, name: Seq<char>) -> Option<Seq<char>>
    decreases groups.len(),
{
    if groups.len() == 0 {
        None
    } else if groups[0].name@ == name {
        Some(groups[0].id@)
    } else {
        spec_find_group_id(groups.drop_first(), name)
    }
}

pub open spec fn has_group_named(groups: Seq<Group>, name: Seq<char>) -> bool {
    exists|i: int| 0 <= i < groups.len() && groups[i].name@ == name
}

pub open spec fn has_group_id(groups: Seq<Group>, id: Seq<char>) -> bool {
    exists|i: int| 0 <= i < groups.len() && groups[i].id@ == id
}

/// No two groups share a name.
pub open spec fn group_names_unique(groups: Seq<Group>) -> bool {
    forall|i: int, j: int| 0 <= i < j < groups.len() ==> groups[i].name@ != groups[j].name@
}

/// No two groups share an identifier.
pub open spec fn group_ids_unique(groups: Seq<Group>) -> bool {
    forall|i: int, j: int| 0 <= i < j < groups.len() ==> groups[i].id@ != groups[j].id@
}

/// A name lookup lands on the first group carrying the name.
proof fn lemma_find_group_first(groups: Seq<Group>, name: Seq<char>, j: int)
    requires
        0 <= j < groups.len(),
        groups[j].name@ == name,
        forall|k: int| 0 <= k < j ==> groups[k].name@ != name,
    ensures
        spec_find_group_id(groups, name) == Some(groups[j].id@),
    decreases j,
{
    if j > 0 {
        let t = groups.drop_first();
        assert(forall|k: int| 0 <= k < j - 1 ==> #[trigger] t[k].name@ == groups[k + 1].name@);
        lemma_find_group_first(t, name, j - 1);
    }
}

/// A name carried by no group is not found.
proof fn lemma_find_group_none(groups: Seq<Group>, name: Seq<char>)
    requires
        forall|k: int| 0 <= k < groups.len() ==> groups[k].name@ != name,
    ensures
        spec_find_group_id(groups, name) is None,
    decreases groups.len(),
{
    if groups.len() > 0 {
        let t = groups.drop_first();
        assert(forall|k: int| 0 <= k < t.len() ==> #[trigger] t[k].name@ == groups[k + 1].name@);
        lemma_find_group_none(t, name);
    }
}

/// A failed lookup means no group carries the name.
proof fn lemma_find_group_some_of_named(groups: Seq<Group>, name: Seq<char>)
    requires
        spec_find_group_id(groups, name) is None,
    ensures
        forall|k: int| 0 <= k < groups.len() ==> groups[k].name@ != name,
    decreases groups.len(),
{
    if groups.len() > 0 {
        lemma_find_group_some_of_named(groups.drop_first(), name);
        assert forall|k: int| 0 <= k < groups.len() implies groups[k].name@ != name by {
            if k > 0 {
                assert(groups.drop_first()[k - 1] == groups[k]);
            }
        }
    }
}

/// A found identifier belongs to a group carrying the looked-up name.
pub proof fn lemma_find_group_id_member(groups: Seq<Group>, name: Seq<char>)
    ensures
        spec_find_group_id(groups, name) matches Some(id) ==> exists|g: int|
            0 <= g < groups.len() && groups[g].name@ == name && groups[g].id@ == id,
    decreases groups.len(),
{
    if groups.len() > 0 && groups[0].name@ != name {
        lemma_find_group_id_member(groups.drop_first(), name);
        if spec_find_group_id(groups, name) is Some {
            let g = choose|g: int|
                0 <= g < groups.drop_first().len() && groups.drop_first()[g].name@ == name
                    && groups.drop_first()[g].id@ == spec_find_group_id(groups, name)->Some_0;
            assert(groups[g + 1].name@ == name);
        }
    }
}

/// Relies on uuid::Uuid::new_v4 and its Display impl: a fresh random
/// identifier, rendered in the 36-character hyphenated form.
#[verifier::external_body]
fn fresh_uuid_string() -> (r: String)
    ensures
        r@.len() == 36,
{
    uuid::Uuid::new_v4().to_string()
}

/// Whether the list holds a string equal to `s`.
fn contains_str(list: &Vec<String>, s: &str) -> (r: bool)
    ensures
        r == (exists|i: int| 0 <= i < list@.len() && list@[i]@ == s@),
{
    let n = list.len();
    let mut i: usize = 0;
    while i < n
        invariant
            i <= n,
            n == list@.len(),
            forall|k: int| 0 <= k < i ==> list@[k]@ != s@,
        decreases n - i,
    {
        if crate::text::str_eq(list[i].as_str(), s) {
            return true;
        }
        i += 1;
    }
    false
}

/// The length of the longest string in the list.
fn max_str_len(list: &Vec<String>) -> (m: usize)
    ensures
        forall|i: int| 0 <= i < list@.len() ==> list@[i]@.len() <= m,
{
    let n = list.len();
    let mut m: usize = 0;
    let mut i: usize = 0;
    while i < n
        invariant
            i <= n,
            n == list@.len(),
            forall|k: int| 0 <= k < i ==> list@[k]@.len() <= m,
        decreases n - i,
    {
        let l = list[i].as_str().unicode_len();
        if l > m {
            m = l;
        }
        i += 1;
    }
    m
}

/// How much room is left before a candidate is longer than every taken
/// identifier (and therefore cannot collide).
spec fn room_left(maxlen: int, len: int) -> int {
    if len <= maxlen {
        maxlen + 1 - len
    } else {
        0
    }
}

/// An identifier starting with `base` that equals none of the taken ones.
/// The suffix after `base` is one or more freshly generated UUIDs; a new
/// one is drawn as long as the candidate collides.
fn gen_unique_id(base: &str, taken: &Vec<String>) -> (r: String)
    ensures
        forall|i: int| 0 <= i < taken@.len() ==> taken@[i]@ != r@,
        exists|sfx: Seq<char>| r@ == base@ + sfx,
{
    let maxlen = max_str_len(taken);
    let mut suffix: String = fresh_uuid_string();
    loop
        invariant
            forall|i: int| 0 <= i < taken@.len() ==> taken@[i]@.len() <= maxlen,
        decreases room_left(maxlen as int, base@.len() + suffix@.len() as int),
    {
        let candidate: String = String::from_str(base).concat(suffix.as_str());
        if !contains_str(taken, candidate.as_str()) {
            proof {
                assert(candidate@ == base@ + suffix@);
            }
            return candidate;
        }
        proof {
            let i = choose|i: int| 0 <= i < taken@.len() && taken@[i]@ == candidate@;
            assert(candidate@.len() <= maxlen);
        }
        suffix = fresh_uuid_string().concat(suffix.as_str());
    }
}

/// The identifiers the profiles carry, in order (profiles without one
/// contribute nothing).
fn profile_ids_of(ps: &Vec<Profile>) -> (r: Vec<String>)
    ensures
        forall|k: int|
            0 <= k < ps@.len() ==> ((#[trigger] ps@[k].id.deep_view()) matches Some(sv)
                ==> exists|j: int| 0 <= j < r@.len() && r@[j]@ == sv),
{
    let n = ps.len();
    let mut ids: Vec<String> = Vec::new();
    let mut i: usize = 0;
    while i < n
        invariant
            i <= n,
            n == ps@.len(),
            forall|k: int|
                0 <= k < i ==> ((#[trigger] ps@[k].id.deep_view()) matches Some(sv) ==> exists|
                    j: int,
                |
                    0 <= j < ids@.len() && ids@[j]@ == sv),
        decreases n - i,
    {
        let ghost prev = ids@;
        match &ps[i].id {
            Some(id) => {
                let c = id.clone();
                ids.push(c);
            },
            None => {},
        }
        proof {
            assert forall|k: int|
                0 <= k < i + 1 implies ((#[trigger] ps@[k].id.deep_view()) matches Some(sv)
                ==> exists|j: int| 0 <= j < ids@.len() && ids@[j]@ == sv) by {
                if ps@[k].id.deep_view() is Some {
                    let sv = ps@[k].id.deep_view()->Some_0;
                    if k < i {
                        let j = choose|j: int| 0 <= j < prev.len() && prev[j]@ == sv;
                        assert(ids@[j]@ == sv);
                    } else {
                        assert(ids@[ids@.len() - 1]@ == sv);
                    }
                }
            }
        }
        i += 1;
    }
    ids
}

/// The identifier of the first group carrying the name, if any.
fn find_group_id_by_name(gs: &Vec<Group>, name: &str) -> (r: Option<String>)
    ensures
        match r {
            Some(id) => spec_find_group_id(gs@, name@) == Some(id@),
            None => spec_find_group_id(gs@, name@) is None,
        },
{
    let n = gs.len();
    let mut i: usize = 0;
    while i < n
        invariant
            i <= n,
            n == gs@.len(),
            forall|k: int| 0 <= k < i ==> gs@[k].name@ != name@,
        decreases n - i,
    {
        if crate::text::str_eq(gs[i].name.as_str(), name) {
            proof {
                lemma_find_group_first(gs@, name@, i as int);
            }
            return Some(gs[i].id.clone());
        }
        i += 1;
    }
    proof {
        lemma_find_group_none(gs@, name@);
    }
    None
}

/// The identifiers of all groups, in order.
fn group_ids_of(gs: &Vec<Group>) -> (r: Vec<String>)
    ensures
        r@.len() == gs@.len(),
        forall|k: int| 0 <= k < gs@.len() ==> (#[trigger] r@[k])@ == gs@[k].id@,
{
    let n = gs.len();
    let mut ids: Vec<String> = Vec::new();
    let mut i: usize = 0;
    while i < n
        invariant
            i <= n,
            n == gs@.len(),
            ids@.len() == i,
            forall|k: int| 0 <= k < i ==> (#[trigger] ids@[k])@ == gs@[k].id@,
        decreases n - i,
    {
        let c = gs[i].id.clone();
        ids.push(c);
        i += 1;
    }
    ids
}

/// An imported profile's identifier: protocol, a fixed tag, the profile
/// name, and a generated suffix, joined by `:`.
pub open spec fn profile_id_form(
    id: Seq<char>,
    protocol: Seq<char>,
    identifier: Seq<char>,
    name: Seq<char>,
) -> bool {
    exists|sfx: Seq<char>| id == protocol + ":"@ + identifier + ":"@ + name + ":"@ + sfx
}

/// The name under which a record is imported (records without one import
/// under the empty name).
pub open spec fn rec_name(r: RemminaProfile) -> Seq<char> {
    match r.name {
        Some(n) => n@,
        None => Seq::empty(),
    }
}

/// The protocol string of a record, empty when absent.
pub open spec fn rec_protocol(r: RemminaProfile) -> Seq<char> {
    match r.protocol {
        Some(p) => p@,
        None => Seq::empty(),
    }
}

/// The group a record lands in: its own group name, with a fixed fallback.
pub open spec fn rec_group_name(r: RemminaProfile) -> Seq<char> {
    match r.group {
        Some(g) => g@,
        None => "Default Group"@,
    }
}

/// Whether the record at position `i` of a batch is imported into a
/// document whose profiles are `existing`: its name must be taken neither
/// by an existing profile nor by any earlier record of the batch.
pub open spec fn spec_imported(
    existing: Seq<Profile>,
    recs: Seq<RemminaProfile>,
    i: int,
) -> bool {
    &&& !has_profile_named(existing, rec_name(recs[i]))
    &&& forall|j: int| 0 <= j < i ==> rec_name(recs[j]) != rec_name(recs[i])
}

/// How many of the first `n` records of a batch are imported.
pub open spec fn imported_count(
    existing: Seq<Profile>,
    recs: Seq<RemminaProfile>,
    n: int,
) -> int
    decreases n,
{
    if n <= 0 {
        0
    } else {
        imported_count(existing, recs, n - 1) + if spec_imported(existing, recs, n - 1) {
            1 as int
        } else {
            0 as int
        }
    }
}

proof fn lemma_imported_count_bounds(
    existing: Seq<Profile>,
    recs: Seq<RemminaProfile>,
    n: int,
)
    requires
        n >= 0,
    ensures
        0 <= imported_count(existing, recs, n) <= n,
    decreases n,
{
    if n > 0 {
        lemma_imported_count_bounds(existing, recs, n - 1);
    }
}

proof fn lemma_imported_count_mono(
    existing: Seq<Profile>,
    recs: Seq<RemminaProfile>,
    a: int,
    b: int,
)
    requires
        0 <= a <= b,
    ensures
        imported_count(existing, recs, a) <= imported_count(existing, recs, b),
    decreases b - a,
{
    if a < b {
        lemma_imported_count_mono(existing, recs, a, b - 1);
    }
}

/// Whether the profile slot at position `k` of the merged document is the
/// image of one of the first `upto` records of the batch.
pub open spec fn slot_filled(
    existing: Seq<Profile>,
    recs: Seq<RemminaProfile>,
    upto: int,
    k: int,
) -> bool {
    exists|i: int|
        0 <= i < upto && spec_imported(existing, recs, i) && existing.len() + imported_count(
            existing,
            recs,
            i,
        ) == k
}

proof fn lemma_slot_filled_widen(
    existing: Seq<Profile>,
    recs: Seq<RemminaProfile>,
    a: int,
    b: int,
    k: int,
)
    requires
        a <= b,
        slot_filled(existing, recs, a, k),
    ensures
        slot_filled(existing, recs, b, k),
{
    let i = choose|i: int|
        0 <= i < a && spec_imported(existing, recs, i) && existing.len() + imported_count(
            existing,
            recs,
            i,
        ) == k;
    assert(0 <= i < b && spec_imported(existing, recs, i) && existing.len() + imported_count(
        existing,
        recs,
        i,
    ) == k);
}

/// When a record's name is free in the document but an earlier record of
/// the batch carries it, some earlier record with that name is imported.
proof fn lemma_first_same_name(existing: Seq<Profile>, recs: Seq<RemminaProfile>, t: int)
    requires
        0 <= t < recs.len(),
        !has_profile_named(existing, rec_name(recs[t])),
        exists|j: int| 0 <= j < t && rec_name(recs[j]) == rec_name(recs[t]),
    ensures
        exists|j: int|
            0 <= j < t && spec_imported(existing, recs, j) && rec_name(recs[j]) == rec_name(
                recs[t],
            ),
    decreases t,
{
    let j = choose|j: int| 0 <= j < t && rec_name(recs[j]) == rec_name(recs[t]);
    if !spec_imported(existing, recs, j) {
        assert(exists|j2: int| 0 <= j2 < j && rec_name(recs[j2]) == rec_name(recs[j]));
        lemma_first_same_name(existing, recs, j);
        let j3 = choose|j3: int|
            0 <= j3 < j && spec_imported(existing, recs, j3) && rec_name(recs[j3]) == rec_name(
                recs[j],
            );
        assert(0 <= j3 < t && spec_imported(existing, recs, j3) && rec_name(recs[j3]) == rec_name(
            recs[t],
        ));
    }
}

/// A record whose name exactly matches an existing profile's name is never
/// imported and leaves the running import count unchanged at its position.
pub proof fn lemma_existing_name_never_imported(
    existing: Seq<Profile>,
    recs: Seq<RemminaProfile>,
    i: int,
)
    requires
        0 <= i < recs.len(),
        has_profile_named(existing, rec_name(recs[i])),
    ensures
        !spec_imported(existing, recs, i),
        imported_count(existing, recs, i + 1) == imported_count(existing, recs, i),
{
}

/// A profile whose identifier no existing profile carries can be appended
/// without breaking identifier uniqueness.
pub proof fn lemma_fresh_id_keeps_ids_unique(profiles: Seq<Profile>, p: Profile)
    requires
        profile_ids_unique(profiles),
        p.id.deep_view() is Some,
        !has_profile_id(profiles, p.id.deep_view()->Some_0),
    ensures
        profile_ids_unique(profiles.push(p)),
{
    let w = profiles.push(p);
    assert forall|i: int, j: int|
        0 <= i < j < w.len() && w[i].id.deep_view() is Some implies w[i].id.deep_view()
        != w[j].id.deep_view() by {
        if j == w.len() - 1 {
            if w[i].id.deep_view() == p.id.deep_view() {
                assert(has_profile_id(profiles, p.id.deep_view()->Some_0));
            }
        }
    }
}

/// Identifiers drawn against the document and added one after the other
/// stay pairwise unique: when each added profile carries an identifier
/// that is fresh against everything in the document at its add — which is
/// what `generate_profile_uuid` returns — identifier uniqueness is kept
/// over the whole sequence of adds.
pub proof fn lemma_generated_ids_stay_unique(profiles: Seq<Profile>, added: Seq<Profile>)
    requires
        profile_ids_unique(profiles),
        forall|k: int| 0 <= k < added.len() ==> (#[trigger] added[k]).id.deep_view() is Some,
        forall|k: int|
            0 <= k < added.len() ==> !has_profile_id(
                profiles + added.take(k),
                (#[trigger] added[k]).id.deep_view()->Some_0,
            ),
    ensures
        profile_ids_unique(profiles + added),
    decreases added.len(),
{
    if added.len() == 0 {
        assert(profiles + added =~= profiles);
    } else {
        let a2 = added.drop_last();
        assert forall|k: int| 0 <= k < a2.len() implies !has_profile_id(
            profiles + a2.take(k),
            (#[trigger] a2[k]).id.deep_view()->Some_0,
        ) by {
            assert(a2[k] == added[k]);
            assert(a2.take(k) =~= added.take(k));
        }
        lemma_generated_ids_stay_unique(profiles, a2);
        let lastp = added.last();
        assert(added.take(added.len() - 1) =~= a2);
        assert(!has_profile_id(profiles + a2, lastp.id.deep_view()->Some_0));
        lemma_fresh_id_keeps_ids_unique(profiles + a2, lastp);
        assert(profiles + added =~= (profiles + a2).push(lastp));
    }
}

/// Looking a name up right after a group carrying it was appended yields
/// that group's identifier: with `add_group`'s contract this makes the
/// operation idempotent by name.
pub proof fn lemma_add_group_idempotent(groups: Seq<Group>, g: Group)
    requires
        spec_find_group_id(groups, g.name@) is None,
    ensures
        spec_find_group_id(groups.push(g), g.name@) == Some(g.id@),
{
    lemma_find_group_some_of_named(groups, g.name@);
    assert(forall|k: int| 0 <= k < groups.len() ==> (#[trigger] groups.push(g)[k]) == groups[k]);
    lemma_find_group_first(groups.push(g), g.name@, groups.len() as int);
}

/// A batch of zero records imports nothing, whatever the document holds;
/// with `import_profiles`' contract, a document that performs zero imports
/// is unchanged in every field.
pub proof fn lemma_empty_import_counts_zero(existing: Seq<Profile>, recs: Seq<RemminaProfile>)
    requires
        recs.len() == 0,
    ensures
        imported_count(existing, recs, recs.len() as int) == 0,
{
}

/// Whether a group can stem from importing this batch into a document with
/// these profiles: some imported record carries exactly its group name.
pub open spec fn group_from_batch(
    existing: Seq<Profile>,
    recs: Seq<RemminaProfile>,
    g: Group,
) -> bool {
    exists|i: int|
        0 <= i < recs.len() && spec_imported(existing, recs, i) && g.name@ == rec_group_name(
            recs[i],
        )
}

/// The preserved unknown fields carry pairwise distinct keys, as the
/// mapping they are read from guarantees.
pub open spec fn extra_keys_unique(extra: Seq<(String, serde_yaml_ng::Value)>) -> bool {
    forall|i: int, j: int| 0 <= i < j < extra.len() ==> extra[i].0@ != extra[j].0@
}

/// What the profile built for an imported record holds, field by field:
/// type and name from the record, host, user and auth tag in the options,
/// the resolved port, default icon, weight and color, a generated
/// identifier, and a group reference that resolves, in the document's
/// group list, to a group carrying the record's group name.
pub open spec fn profile_from_record(p: Profile, rec: RemminaProfile, groups: Seq<Group>) -> bool {
    &&& p.name@ == rec_name(rec)
    &&& p.profile_type@ == lower_of(rec_protocol(rec))
    &&& p.options.host.deep_view() == rec.server.deep_view()
    &&& p.options.user.deep_view() == rec.user.deep_view()
    &&& p.options.auth.deep_view() == Some("password"@)
    &&& p.options.algorithms is Some
    &&& p.options.input is Some
    &&& p.options.port == spec_resolve_port(rec.port.deep_view(), spec_protocol_from(rec_protocol(rec)))
    &&& p.icon@ == "fas fa-terminal"@
    &&& p.weight == -1
    &&& p.color@ == "#FF9C00"@
    &&& (p.id matches Some(pid) && profile_id_form(
        pid@,
        lower_of(rec_protocol(rec)),
        "custom"@,
        rec_name(rec),
    ))
    &&& (p.group matches Some(gid) && exists|g: int|
        0 <= g < groups.len() && (#[trigger] groups[g]).id@ == gid@ && groups[g].name@
            == rec_group_name(rec))
}

/// A copy of an optional string.
fn clone_opt_string(o: &Option<String>) -> (r: Option<String>)
    ensures
        r == *o,
{
    match o {
        Some(s) => Some(s.clone()),
        None => None,
    }
}

impl TabbyConfig {
    /// The first profile carrying exactly this name, if any.
    pub fn get_profile(&self, name: &str) -> (r: Option<&Profile>)
        ensures
            match r {
                Some(p) => exists|i: int|
                    0 <= i < self.profiles@.len() && *p == self.profiles@[i]
                        && (#[trigger] self.profiles@[i]).name@ == name@ && (forall|k: int|
                        0 <= k < i ==> self.profiles@[k].name@ != name@),
                None => !has_profile_named(self.profiles@, name@),
            },
    {
        let n = self.profiles.len();
        let mut i: usize = 0;
        while i < n
            invariant
                i <= n,
                n == self.profiles@.len(),
                forall|k: int| 0 <= k < i ==> self.profiles@[k].name@ != name@,
            decreases n - i,
        {
            if crate::text::str_eq(self.profiles[i].name.as_str(), name) {
                return Some(&self.profiles[i]);
            }
            i += 1;
        }
        None
    }

    /// Appends a profile; uniqueness of names is the merge engine's duty,
    /// not this method's.
    pub fn add_profile(&mut self, profile: Profile)
        ensures
            final(self).profiles@ == old(self).profiles@.push(profile),
            final(self).groups == old(self).groups,
            final(self).version == old(self).version,
            final(self).extra == old(self).extra,
    {
        self.profiles.push(profile);
    }

    /// A random group identifier: a freshly generated UUID.
    pub fn generate_group_id() -> (r: String)
        ensures
            r@.len() == 36,
    {
        fresh_uuid_string()
    }

    /// A profile identifier of the form `protocol:identifier:name:suffix`
    /// that no profile of this document carries.
    pub fn generate_profile_uuid(&self, protocol: &str, identifier: &str, name: &str) -> (r:
        String)
        ensures
            !has_profile_id(self.profiles@, r@),
            profile_id_form(r@, protocol@, identifier@, name@),
    {
        let mut base = String::from_str(protocol);
        base.append(":");
        base.append(identifier);
        base.append(":");
        base.append(name);
        base.append(":");
        let ids = profile_ids_of(&self.profiles);
        let r = gen_unique_id(base.as_str(), &ids);
        proof {
            if has_profile_id(self.profiles@, r@) {
                let k = choose|k: int|
                    0 <= k < self.profiles@.len() && self.profiles@[k].id.deep_view() == Some(r@);
                assert(exists|j: int| 0 <= j < ids@.len() && ids@[j]@ == r@);
            }
            let sfx = choose|sfx: Seq<char>| r@ == base@ + sfx;
            assert(r@ =~= protocol@ + ":"@ + identifier@ + ":"@ + name@ + ":"@ + sfx);
        }
        r
    }

    /// Returns the identifier of the group carrying exactly this name,
    /// creating the group (and the group list) when there is none. The
    /// created identifier equals no existing group identifier.
    pub fn add_group(&mut self, name: &str) -> (id: String)
        ensures
            final(self).version == old(self).version,
            final(self).profiles@ == old(self).profiles@,
            final(self).extra@ == old(self).extra@,
            spec_find_group_id(groups_seq(final(self).groups), name@) == Some(id@),
            match spec_find_group_id(groups_seq(old(self).groups), name@) {
                Some(g) => groups_seq(final(self).groups) == groups_seq(old(self).groups) && id@
                    == g,
                None => {
                    let oldg = groups_seq(old(self).groups);
                    let newg = groups_seq(final(self).groups);
                    &&& newg.len() == oldg.len() + 1
                    &&& newg.subrange(0, oldg.len() as int) == oldg
                    &&& newg.last().name@ == name@
                    &&& newg.last().id@ == id@
                    &&& !has_group_id(oldg, id@)
                },
            },
            group_names_unique(groups_seq(old(self).groups)) ==> group_names_unique(
                groups_seq(final(self).groups),
            ),
            group_ids_unique(groups_seq(old(self).groups)) ==> group_ids_unique(
                groups_seq(final(self).groups),
            ),
    {
        let ghost oldg = groups_seq(self.groups);
        let found: Option<String> = match &self.groups {
            Some(gs) => find_group_id_by_name(gs, name),
            None => None,
        };
        if let Some(id) = found {
            return id;
        }
        let mut gs: Vec<Group> = match self.groups.take() {
            Some(v) => v,
            None => Vec::new(),
        };
        proof {
            assert(gs@ == oldg);
        }
        let taken = group_ids_of(&gs);
        let id = gen_unique_id("", &taken);
        let g = Group { id: id.clone(), name: name.to_owned() };
        gs.push(g);
        proof {
            assert(forall|k: int| 0 <= k < oldg.len() ==> (#[trigger] gs@[k]) == oldg[k]);
            assert(forall|k: int| 0 <= k < oldg.len() ==> oldg[k].name@ != name@) by {
                lemma_find_group_some_of_named(oldg, name@);
            }
            lemma_find_group_first(gs@, name@, oldg.len() as int);
            assert(gs@.subrange(0, oldg.len() as int) =~= oldg);
            if has_group_id(oldg, id@) {
                let k = choose|k: int| 0 <= k < oldg.len() && oldg[k].id@ == id@;
                assert(taken@[k]@ == id@);
            }
        }
        self.groups = Some(gs);
        id
    }

    /// Imports a batch of records, in input order. A record whose name an
    /// existing profile (or an earlier imported record) already carries is
    /// skipped and not counted; every other record is appended as a new
    /// profile with a generated, collision-free identifier, a resolved or
    /// created group, and the protocol's default port when the record
    /// carries no valid port. Returns how many profiles were added; a run
    /// that adds none leaves the document unchanged in every field.
    pub fn import_profiles(&mut self, profiles: Vec<RemminaProfile>) -> (count: usize)
        ensures
            count as int == imported_count(old(self).profiles@, profiles@, profiles@.len() as int),
            final(self).version == old(self).version,
            final(self).extra@ == old(self).extra@,
            final(self).profiles@.len() == old(self).profiles@.len() + count,
            final(self).profiles@.subrange(0, old(self).profiles@.len() as int) == old(
                self,
            ).profiles@,
            groups_seq(old(self).groups).is_prefix_of(groups_seq(final(self).groups)),
            groups_seq(final(self).groups).len() <= groups_seq(old(self).groups).len() + count,
            forall|g: int|
                groups_seq(old(self).groups).len() <= g < groups_seq(final(self).groups).len()
                    ==> group_from_batch(
                    old(self).profiles@,
                    profiles@,
                    #[trigger] groups_seq(final(self).groups)[g],
                ),
            forall|k: int, j: int|
                #![trigger final(self).profiles@[k], final(self).profiles@[j]]
                old(self).profiles@.len() <= k < final(self).profiles@.len() && 0 <= j
                    < final(self).profiles@.len() && j != k
                    ==> final(self).profiles@[k].id.deep_view()
                    != final(self).profiles@[j].id.deep_view(),
            extra_keys_unique(old(self).extra@) ==> extra_keys_unique(final(self).extra@),
            forall|i: int|
                0 <= i < profiles@.len() && #[trigger] spec_imported(
                    old(self).profiles@,
                    profiles@,
                    i,
                ) ==> profile_from_record(
                    final(self).profiles@[old(self).profiles@.len() + imported_count(
                        old(self).profiles@,
                        profiles@,
                        i,
                    )],
                    profiles@[i],
                    groups_seq(final(self).groups),
                ),
            forall|k: int|
                old(self).profiles@.len() <= k < final(self).profiles@.len()
                    ==> #[trigger] slot_filled(
                    old(self).profiles@,
                    profiles@,
                    profiles@.len() as int,
                    k,
                ),
            profile_names_unique(old(self).profiles@) ==> profile_names_unique(
                final(self).profiles@,
            ),
            profile_ids_unique(old(self).profiles@) ==> profile_ids_unique(final(self).profiles@),
            group_names_unique(groups_seq(old(self).groups)) ==> group_names_unique(
                groups_seq(final(self).groups),
            ),
            group_ids_unique(groups_seq(old(self).groups)) ==> group_ids_unique(
                groups_seq(final(self).groups),
            ),
            count == 0 ==> *final(self) == *old(self),
    {
        let ghost old_p = self.profiles@;
        let ghost rv = profiles@;
        let m = profiles.len();
        let mut c: usize = 0;
        let mut t: usize = 0;
        while t < m
            invariant
                t <= m,
                c <= t,
                m == rv.len(),
                profiles@ == rv,
                old_p == old(self).profiles@,
                c as int == imported_count(old_p, rv, t as int),
                self.version == old(self).version,
                self.extra@ == old(self).extra@,
                self.profiles@.len() == old_p.len() + c,
                self.profiles@.subrange(0, old_p.len() as int) == old_p,
                groups_seq(old(self).groups).is_prefix_of(groups_seq(self.groups)),
                groups_seq(self.groups).len() <= groups_seq(old(self).groups).len() + c,
                forall|g: int|
                    groups_seq(old(self).groups).len() <= g < groups_seq(self.groups).len()
                        ==> group_from_batch(old_p, rv, #[trigger] groups_seq(self.groups)[g]),
                forall|k: int, j: int|
                    #![trigger self.profiles@[k], self.profiles@[j]]
                    old_p.len() <= k < self.profiles@.len() && 0 <= j < self.profiles@.len() && j
                        != k ==> self.profiles@[k].id.deep_view()
                        != self.profiles@[j].id.deep_view(),
                group_names_unique(groups_seq(old(self).groups)) ==> group_names_unique(
                    groups_seq(self.groups),
                ),
                group_ids_unique(groups_seq(old(self).groups)) ==> group_ids_unique(
                    groups_seq(self.groups),
                ),
                profile_names_unique(old_p) ==> profile_names_unique(self.profiles@),
                profile_ids_unique(old_p) ==> profile_ids_unique(self.profiles@),
                c == 0 ==> *self == *old(self),
                forall|i: int|
                    0 <= i < t && #[trigger] spec_imported(old_p, rv, i) ==> profile_from_record(
                        self.profiles@[old_p.len() + imported_count(old_p, rv, i)],
                        rv[i],
                        groups_seq(self.groups),
                    ),
                forall|k: int|
                    old_p.len() <= k < self.profiles@.len() ==> #[trigger] slot_filled(
                        old_p,
                        rv,
                        t as int,
                        k,
                    ),
            decreases m - t,
        {
            let rec = &profiles[t];
            let name_s: String = match &rec.name {
                Some(n) => n.clone(),
                None => String::new(),
            };
            proof {
                assert(name_s@ == rec_name(rv[t as int]));
            }
            let exists_already = self.get_profile(name_s.as_str()).is_some();
            proof {
                if exists_already {
                    let k = choose|k: int|
                        0 <= k < self.profiles@.len() && self.profiles@[k].name@ == name_s@;
                    if k < old_p.len() {
                        assert(self.profiles@.subrange(0, old_p.len() as int)[k]
                            == self.profiles@[k]);
                        assert(has_profile_named(old_p, name_s@));
                    } else {
                        assert(slot_filled(old_p, rv, t as int, k));
                        let i = choose|i: int|
                            0 <= i < t && spec_imported(old_p, rv, i) && old_p.len()
                                + imported_count(old_p, rv, i) == k;
                        assert(profile_from_record(
                            self.profiles@[k],
                            rv[i],
                            groups_seq(self.groups),
                        ));
                        assert(rec_name(rv[i]) == name_s@);
                    }
                    assert(!spec_imported(old_p, rv, t as int));
                } else {
                    if has_profile_named(old_p, name_s@) {
                        let k = choose|k: int|
                            0 <= k < old_p.len() && old_p[k].name@ == name_s@;
                        assert(self.profiles@.subrange(0, old_p.len() as int)[k] == old_p[k]);
                        assert(self.profiles@[k].name@ == name_s@);
                        assert(has_profile_named(self.profiles@, name_s@));
                    }
                    assert forall|j: int| 0 <= j < t implies rec_name(rv[j]) != rec_name(
                        rv[t as int],
                    ) by {
                        if rec_name(rv[j]) == rec_name(rv[t as int]) {
                            lemma_first_same_name(old_p, rv, t as int);
                            let j0 = choose|j0: int|
                                0 <= j0 < t && spec_imported(old_p, rv, j0) && rec_name(rv[j0])
                                    == rec_name(rv[t as int]);
                            lemma_imported_count_mono(old_p, rv, j0 + 1, t as int);
                            lemma_imported_count_bounds(old_p, rv, j0);
                            let idx = old_p.len() + imported_count(old_p, rv, j0);
                            assert(0 <= imported_count(old_p, rv, j0) < c as int);
                            assert(profile_from_record(
                                self.profiles@[idx],
                                rv[j0],
                                groups_seq(self.groups),
                            ));
                            assert(self.profiles@[idx].name@ == name_s@);
                            assert(has_profile_named(self.profiles@, name_s@));
                        }
                    }
                    assert(spec_imported(old_p, rv, t as int));
                }
            }
            if !exists_already {
                let ghost pre = *self;
                let protocol_s: String = match &rec.protocol {
                    Some(p) => p.clone(),
                    None => String::new(),
                };
                proof {
                    assert(protocol_s@ == rec_protocol(rv[t as int]));
                }
                let lower_proto = lowercase_str(protocol_s.as_str());
                let profile_id = self.generate_profile_uuid(
                    lower_proto.as_str(),
                    "custom",
                    name_s.as_str(),
                );
                let group_name: String = match &rec.group {
                    Some(g) => g.clone(),
                    None => "Default Group".to_owned(),
                };
                proof {
                    assert(group_name@ == rec_group_name(rv[t as int]));
                }
                let ghost groups_before = groups_seq(self.groups);
                let group_id = self.add_group(group_name.as_str());
                proof {
                    lemma_find_group_id_member(groups_seq(self.groups), group_name@);
                    // the old groups stay in place, whether or not one was appended
                    assert(forall|g: int|
                        0 <= g < groups_before.len() ==> (#[trigger] groups_seq(self.groups)[g])
                            == groups_before[g]);
                    assert(groups_seq(old(self).groups).is_prefix_of(groups_seq(self.groups)));
                    // any group beyond the old document's list stems from the batch
                    assert forall|g: int|
                        groups_seq(old(self).groups).len() <= g < groups_seq(self.groups).len()
                        implies group_from_batch(
                        old_p,
                        rv,
                        #[trigger] groups_seq(self.groups)[g],
                    ) by {
                        if g < groups_before.len() {
                            assert(groups_seq(self.groups)[g] == groups_before[g]);
                            assert(group_from_batch(old_p, rv, groups_before[g]));
                        } else {
                            assert(groups_seq(self.groups)[g].name@ == rec_group_name(
                                rv[t as int],
                            ));
                            assert(0 <= t < rv.len() && spec_imported(old_p, rv, t as int));
                        }
                    }
                }
                let proto_enum = ConnectionProtocols::from_str(protocol_s.as_str());
                let port = resolve_port(&rec.port, &proto_enum);
                let host = clone_opt_string(&rec.server);
                let user = clone_opt_string(&rec.user);
                let options = ProfileOptions {
                    host,
                    user,
                    algorithms: Some(empty_mapping()),
                    input: Some(empty_mapping()),
                    auth: Some("password".to_owned()),
                    port,
                };
                let new_profile = Profile {
                    profile_type: lower_proto,
                    name: name_s,
                    icon: Profile::default_icon(),
                    options,
                    weight: Profile::default_weight(),
                    color: Profile::default_color(),
                    group: Some(group_id),
                    id: Some(profile_id),
                };
                let ghost np = new_profile;
                let ghost before_push = self.profiles@;
                self.add_profile(new_profile);
                proof {
                    assert(self.profiles@.subrange(0, old_p.len() as int) =~= old_p);
                    assert(profile_from_record(np, rv[t as int], groups_seq(self.groups)));
                    assert(self.profiles@[old_p.len() + c] == np);
                    // earlier imported records keep their profiles and witnesses
                    assert forall|i: int|
                        0 <= i < t + 1 && #[trigger] spec_imported(old_p, rv, i)
                        implies profile_from_record(
                        self.profiles@[old_p.len() + imported_count(old_p, rv, i)],
                        rv[i],
                        groups_seq(self.groups),
                    ) by {
                        if i < t {
                            lemma_imported_count_mono(old_p, rv, i + 1, t as int);
                            lemma_imported_count_bounds(old_p, rv, i);
                            let idx = old_p.len() + imported_count(old_p, rv, i);
                            assert(0 <= imported_count(old_p, rv, i) < c as int);
                            assert(self.profiles@[idx] == before_push[idx]);
                            assert(profile_from_record(
                                before_push[idx],
                                rv[i],
                                groups_seq(pre.groups),
                            ));
                            let g = choose|g: int|
                                0 <= g < groups_seq(pre.groups).len() && (#[trigger] groups_seq(
                                    pre.groups,
                                )[g]).id@ == before_push[idx].group->Some_0@ && groups_seq(
                                    pre.groups,
                                )[g].name@ == rec_group_name(rv[i]);
                            assert(groups_seq(self.groups)[g] == groups_seq(pre.groups)[g]);
                        } else {
                            assert(imported_count(old_p, rv, i) == c);
                        }
                    }
                    // every appended slot belongs to an imported record
                    assert forall|k: int|
                        old_p.len() <= k < self.profiles@.len() implies #[trigger] slot_filled(
                        old_p,
                        rv,
                        t + 1,
                        k,
                    ) by {
                        if k < self.profiles@.len() - 1 {
                            assert(self.profiles@[k] == before_push[k]);
                            assert(slot_filled(old_p, rv, t as int, k));
                            lemma_slot_filled_widen(old_p, rv, t as int, t + 1, k);
                        } else {
                            assert(spec_imported(old_p, rv, t as int) && old_p.len()
                                + imported_count(old_p, rv, t as int) == k);
                            assert(slot_filled(old_p, rv, t + 1, k));
                        }
                    }
                    // name uniqueness is kept: the new name was free
                    if profile_names_unique(old_p) {
                        assert forall|i: int, j: int|
                            0 <= i < j < self.profiles@.len() implies self.profiles@[i].name@
                            != self.profiles@[j].name@ by {
                            if j == self.profiles@.len() - 1 {
                                if self.profiles@[i].name@ == np.name@ {
                                    assert(has_profile_named(before_push, np.name@));
                                }
                            } else {
                                assert(self.profiles@[i] == before_push[i]);
                                assert(self.profiles@[j] == before_push[j]);
                            }
                        }
                    }
                    // identifier uniqueness is kept: the identifier was fresh
                    if profile_ids_unique(old_p) {
                        lemma_fresh_id_keeps_ids_unique(before_push, np);
                    }
                    // appended identifiers differ from every other identifier
                    assert forall|k: int, j: int|
                        #![trigger self.profiles@[k], self.profiles@[j]]
                        old_p.len() <= k < self.profiles@.len() && 0 <= j < self.profiles@.len()
                            && j != k implies self.profiles@[k].id.deep_view()
                        != self.profiles@[j].id.deep_view() by {
                        let last = self.profiles@.len() - 1;
                        if k == last {
                            assert(self.profiles@[j] == before_push[j]);
                            if self.profiles@[j].id.deep_view() == np.id.deep_view() {
                                assert(has_profile_id(before_push, np.id.deep_view()->Some_0));
                            }
                        } else if j == last {
                            assert(self.profiles@[k] == before_push[k]);
                            if self.profiles@[k].id.deep_view() == np.id.deep_view() {
                                assert(has_profile_id(before_push, np.id.deep_view()->Some_0));
                            }
                        } else {
                            assert(self.profiles@[k] == before_push[k]);
                            assert(self.profiles@[j] == before_push[j]);
                        }
                    }
                }
                c += 1;
            } else {
                proof {
                    assert forall|k: int|
                        old_p.len() <= k < self.profiles@.len() implies #[trigger] slot_filled(
                        old_p,
                        rv,
                        t + 1,
                        k,
                    ) by {
                        assert(slot_filled(old_p, rv, t as int, k));
                        lemma_slot_filled_widen(old_p, rv, t as int, t + 1, k);
                    }
                }
            }
            t += 1;
        }
        proof {
            assert forall|k: int|
                old_p.len() <= k < self.profiles@.len() implies #[trigger] slot_filled(
                old_p,
                rv,
                rv.len() as int,
                k,
            ) by {
                assert(slot_filled(old_p, rv, t as int, k));
                lemma_slot_filled_widen(old_p, rv, t as int, rv.len() as int, k);
            }
        }
        c
    }
}

} // verus!
