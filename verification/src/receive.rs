//! Which packet type a received packet is read as: the packet ids that
//! packet types claim, in given protocol versions or in all of them, and the
//! clashes between their claims.

use vstd::prelude::*;

verus! {

/// A packet id, with the packet type that takes it in every protocol
/// version, if one does.
pub struct ReceivePacketID {
    pub packet_id: i32,
    pub exclude: Option<String>,
}

impl ReceivePacketID {
    /// A packet id taken in every version by `exclude`, if given.
    pub fn new(packet_id: i32, exclude: Option<String>) -> (r: Self)
        ensures
            r.packet_id == packet_id,
            r.exclude == exclude,
    {
        ReceivePacketID { packet_id, exclude }
    }
}

/// The packet types that take a packet id, each with the protocol versions
/// it takes the id in; a version is marked once a clash was found on it.
pub struct ReceiveMappings {
    pub versions: Vec<(String, Vec<(i32, bool)>)>,
}

impl ReceiveMappings {
    /// The mappings `versions`.
    pub fn new(versions: Vec<(String, Vec<(i32, bool)>)>) -> (r: Self)
        ensures
            r.versions == versions,
    {
        ReceiveMappings { versions }
    }
}

/// Why the claims of packet types on packet ids cannot all stand.
#[derive(Debug, Clone, Copy, PartialEq, Eq)]
pub enum MappingError {
    /// Two packet types take `packet_id` in the protocol version `version`.
    /// Reported once at the earlier claim (`earlier`) and at each new one.
    SamePair { packet_id: i32, version: i32, earlier: bool },
    /// A packet type claims, per version, a packet id that another one takes
    /// in all versions; reported at the new claim.
    CapturedForAllVersions { packet_id: i32 },
    /// The same clash, reported at the packet id taken in all versions.
    VersionsAssignedToCaptured { packet_id: i32 },
    /// Two packet types take `packet_id` in all versions; reported at the
    /// earlier claim (`earlier`) and at the new one.
    MoreThanOneExclude { packet_id: i32, earlier: bool },
    /// A packet type takes in all versions a packet id that packet types
    /// already take per version.
    IdUsedTwice { packet_id: i32 },
}

/// The claims of all packet types so far, one entry per packet id, in the
/// order the ids were first claimed.
pub struct ReceiveMatchMappings {
    pub mappings: Vec<(ReceivePacketID, ReceiveMappings)>,
}

/// A packet type with the versions it takes a packet id in, and whether a
/// clash was found on each.
pub type TypeClaim = (Seq<char>, Seq<(i32, bool)>);

/// The claims on one packet id, as contracts speak of them.
pub ghost struct EntryView {
    pub packet_id: i32,
    /// The packet type that takes the id in all versions.
    pub exclude: Option<Seq<char>>,
    /// The packet types that take the id in given versions.
    pub versions: Seq<TypeClaim>,
}

/// The packet types and their versions, with names as their characters.
pub open spec fn versions_view(v: Seq<(String, Vec<(i32, bool)>)>) -> Seq<TypeClaim> {
    Seq::new(v.len(), |i: int| (v[i].0@, v[i].1@))
}

/// The name of the packet type taking the id in all versions.
pub open spec fn exclude_view(e: Option<String>) -> Option<Seq<char>> {
    match e {
        Some(s) => Some(s@),
        None => None,
    }
}

/// One entry as contracts speak of it.
pub open spec fn entry_view(e: (ReceivePacketID, ReceiveMappings)) -> EntryView {
    EntryView {
        packet_id: e.0.packet_id,
        exclude: exclude_view(e.0.exclude),
        versions: versions_view(e.1.versions@),
    }
}

impl View for ReceiveMatchMappings {
    type V = Seq<EntryView>;

    open spec fn view(&self) -> Seq<EntryView> {
        Seq::new(self.mappings@.len(), |i: int| entry_view(self.mappings@[i]))
    }
}

/// The first entry at or after `i` for the packet id `id`.
pub open spec fn find_id(t: Seq<EntryView>, id: i32, i: int) -> Option<int>
    decreases t.len() - i,
{
    if i < 0 || i >= t.len() {
        None
    } else if t[i].packet_id == id {
        Some(i)
    } else {
        find_id(t, id, i + 1)
    }
}

/// The first position at or after `k` of the version `v` in `m`.
pub open spec fn find_in(m: Seq<(i32, bool)>, v: i32, k: int) -> Option<int>
    decreases m.len() - k,
{
    if k < 0 || k >= m.len() {
        None
    } else if m[k].0 == v {
        Some(k)
    } else {
        find_in(m, v, k + 1)
    }
}

/// Where the version `v` is first claimed, searching the packet types from
/// the `j`th on: the packet type and the position in its versions.
pub open spec fn find_version(vs: Seq<TypeClaim>, v: i32, j: int) -> Option<(int, int)>
    decreases vs.len() - j,
{
    if j < 0 || j >= vs.len() {
        None
    } else {
        match find_in(vs[j].1, v, 0) {
            Some(k) => Some((j, k)),
            None => find_version(vs, v, j + 1),
        }
    }
}

/// Checking the new claim `nm` of a packet type on `id`, from its `q`th
/// version on, against the claims `vs` already made on `id`: a version that
/// another packet type already claims clashes. The clash is marked on both
/// claims, and reported at the earlier one (the first time it clashes) and
/// at the new one. Gives the claims and the new claim once marked, and the
/// errors.
pub open spec fn check_versions(vs: Seq<TypeClaim>, nm: Seq<(i32, bool)>, q: int, id: i32) -> (
    Seq<TypeClaim>,
    Seq<(i32, bool)>,
    Seq<MappingError>,
)
    decreases nm.len() - q,
{
    if q < 0 || q >= nm.len() {
        (vs, nm, Seq::empty())
    } else {
        let v = nm[q].0;
        match find_version(vs, v, 0) {
            None => check_versions(vs, nm, q + 1, id),
            Some((j, k)) => {
                let earlier: Seq<MappingError> = if vs[j].1[k].1 {
                    Seq::empty()
                } else {
                    seq![MappingError::SamePair { packet_id: id, version: v, earlier: true }]
                };
                let vs1 = vs.update(j, (vs[j].0, vs[j].1.update(k, (vs[j].1[k].0, true))));
                let nm1 = nm.update(q, (v, true));
                let rest = check_versions(vs1, nm1, q + 1, id);
                (
                    rest.0,
                    rest.1,
                    earlier + seq![MappingError::SamePair { packet_id: id, version: v, earlier: false }]
                        + rest.2,
                )
            },
        }
    }
}

/// A packet type named `name` claiming `id` in the versions `nm`: a new
/// entry for an id nobody claimed; otherwise the versions are checked, and
/// the claim joins the entry unless another packet type takes the id in all
/// versions, which is an error.
pub open spec fn add_one(t: Seq<EntryView>, id: i32, name: Seq<char>, nm: Seq<(i32, bool)>) -> (
    Seq<EntryView>,
    Seq<MappingError>,
) {
    match find_id(t, id, 0) {
        None => (
            t.push(EntryView { packet_id: id, exclude: None, versions: seq![(name, nm)] }),
            Seq::empty(),
        ),
        Some(i) => {
            let c = check_versions(t[i].versions, nm, 0, id);
            if t[i].exclude is Some {
                (
                    t.update(i, EntryView { versions: c.0, ..t[i] }),
                    c.2 + seq![
                        MappingError::CapturedForAllVersions { packet_id: id },
                        MappingError::VersionsAssignedToCaptured { packet_id: id },
                    ],
                )
            } else {
                (t.update(i, EntryView { versions: c.0.push((name, c.1)), ..t[i] }), c.2)
            }
        },
    }
}

/// The claims `ms` of the packet type `name`, from the `q`th on, made one
/// after the other.
pub open spec fn add_all(
    t: Seq<EntryView>,
    name: Seq<char>,
    ms: Seq<(i32, Seq<(i32, bool)>)>,
    q: int,
) -> (Seq<EntryView>, Seq<MappingError>)
    decreases ms.len() - q,
{
    if q < 0 || q >= ms.len() {
        (t, Seq::empty())
    } else {
        let first = add_one(t, ms[q].0, name, ms[q].1);
        let rest = add_all(first.0, name, ms, q + 1);
        (rest.0, first.1 + rest.1)
    }
}

/// The packet type `ex.1` taking the id `ex.0` in all versions: a new entry
/// for an id nobody claimed, and otherwise an error.
pub open spec fn add_exclude(t: Seq<EntryView>, ex: Option<(i32, Seq<char>)>) -> (
    Seq<EntryView>,
    Seq<MappingError>,
) {
    match ex {
        None => (t, Seq::empty()),
        Some((id, name)) => match find_id(t, id, 0) {
            None => (
                t.push(EntryView { packet_id: id, exclude: Some(name), versions: Seq::empty() }),
                Seq::empty(),
            ),
            Some(i) => if t[i].exclude is Some {
                (
                    t,
                    seq![
                        MappingError::MoreThanOneExclude { packet_id: id, earlier: true },
                        MappingError::MoreThanOneExclude { packet_id: id, earlier: false },
                    ],
                )
            } else {
                (t, seq![MappingError::IdUsedTwice { packet_id: id }])
            },
        },
    }
}

/// The claims of the packet type `name`: its per-version claims `ms`, then
/// its claim on an id in all versions, if any.
pub open spec fn add_packet_spec(
    t: Seq<EntryView>,
    name: Seq<char>,
    ex: Option<(i32, Seq<char>)>,
    ms: Seq<(i32, Seq<(i32, bool)>)>,
) -> (Seq<EntryView>, Seq<MappingError>) {
    let a = add_all(t, name, ms, 0);
    let b = add_exclude(a.0, ex);
    (b.0, a.1 + b.1)
}

/// A version found is at a position that holds it.
proof fn lemma_find_in(m: Seq<(i32, bool)>, v: i32, k: int)
    ensures
        find_in(m, v, k) matches Some(p) ==> k <= p < m.len() && m[p].0 == v,
    decreases m.len() - k,
{
    if 0 <= k < m.len() && m[k].0 != v {
        lemma_find_in(m, v, k + 1);
    }
}

/// A claim found is at a packet type and a position that hold it.
proof fn lemma_find_version(vs: Seq<TypeClaim>, v: i32, j: int)
    ensures
        find_version(vs, v, j) matches Some((a, b)) ==> j <= a < vs.len() && 0 <= b < vs[a].1.len()
            && vs[a].1[b].0 == v,
    decreases vs.len() - j,
{
    if 0 <= j < vs.len() {
        lemma_find_in(vs[j].1, v, 0);
        lemma_find_version(vs, v, j + 1);
    }
}

/// Where the version `v` is first claimed in `vs`: the packet type and the
/// position in its versions.
fn find_version_exec(vs: &Vec<(String, Vec<(i32, bool)>)>, v: i32) -> (r: Option<(usize, usize)>)
    ensures
        match r {
            Some((j, k)) => find_version(versions_view(vs@), v, 0) == Some((j as int, k as int)),
            None => find_version(versions_view(vs@), v, 0) is None,
        },
{
    let ghost view = versions_view(vs@);
    let mut j: usize = 0;
    while j < vs.len()
        invariant
            j <= vs@.len(),
            view == versions_view(vs@),
            find_version(view, v, 0) == find_version(view, v, j as int),
        decreases vs@.len() - j,
    {
        let m = &vs[j].1;
        let ghost mv = view[j as int].1;
        assert(mv == m@);
        let mut k: usize = 0;
        while k < m.len()
            invariant
                k <= m@.len(),
                mv == m@,
                j < vs@.len(),
                view == versions_view(vs@),
                mv == view[j as int].1,
                find_version(view, v, 0) == find_version(view, v, j as int),
                find_in(mv, v, 0) == find_in(mv, v, k as int),
            decreases m@.len() - k,
        {
            if m[k].0 == v {
                proof {
                    assert(find_in(mv, v, k as int) == Some(k as int));
                    assert(find_version(view, v, j as int) == Some((j as int, k as int)));
                }
                return Some((j, k));
            }
            k = k + 1;
        }
        proof {
            assert(find_in(mv, v, k as int) is None);
            assert(find_version(view, v, j as int) == find_version(view, v, j + 1));
        }
        j = j + 1;
    }
    proof {
        assert(find_version(view, v, j as int) is None);
    }
    None
}

/// Checks the new claim `nm` on `id` against the claims `vs`, as
/// [`check_versions`] describes, appending the errors to `errors`.
fn check_versions_exec(
    vs: &mut Vec<(String, Vec<(i32, bool)>)>,
    nm: &mut Vec<(i32, bool)>,
    id: i32,
    errors: &mut Vec<MappingError>,
)
    ensures
        versions_view(final(vs)@) == check_versions(versions_view(old(vs)@), old(nm)@, 0, id).0,
        final(nm)@ == check_versions(versions_view(old(vs)@), old(nm)@, 0, id).1,
        final(errors)@ == old(errors)@ + check_versions(
            versions_view(old(vs)@),
            old(nm)@,
            0,
            id,
        ).2,
{
    let ghost total = check_versions(versions_view(old(vs)@), old(nm)@, 0, id);
    let mut q: usize = 0;
    proof {
        assert(old(errors)@ + total.2 =~= errors@ + total.2);
    }
    while q < nm.len()
        invariant
            q <= nm@.len(),
            total.0 == check_versions(versions_view(vs@), nm@, q as int, id).0,
            total.1 == check_versions(versions_view(vs@), nm@, q as int, id).1,
            old(errors)@ + total.2 == errors@ + check_versions(
                versions_view(vs@),
                nm@,
                q as int,
                id,
            ).2,
        decreases nm@.len() - q,
    {
        let v = nm[q].0;
        let ghost before_vs = versions_view(vs@);
        let ghost before_nm = nm@;
        let ghost before_errors = errors@;
        proof {
            lemma_find_version(before_vs, v, 0);
        }
        match find_version_exec(vs, v) {
            None => {},
            Some((j, k)) => {
                let (name, mut m) = vs.remove(j);
                let flag = m[k].1;
                if !flag {
                    errors.push(MappingError::SamePair { packet_id: id, version: v, earlier: true });
                }
                errors.push(MappingError::SamePair { packet_id: id, version: v, earlier: false });
                let old_version = m[k].0;
                m[k] = (old_version, true);
                vs.insert(j, (name, m));
                nm[q] = (v, true);
                proof {
                    let vs1 = before_vs.update(
                        j as int,
                        (
                            before_vs[j as int].0,
                            before_vs[j as int].1.update(
                                k as int,
                                (before_vs[j as int].1[k as int].0, true),
                            ),
                        ),
                    );
                    assert(versions_view(vs@) =~= vs1);
                    let rest = check_versions(vs1, nm@, q + 1, id);
                    let earlier: Seq<MappingError> = if before_vs[j as int].1[k as int].1 {
                        Seq::empty()
                    } else {
                        seq![MappingError::SamePair { packet_id: id, version: v, earlier: true }]
                    };
                    assert(errors@ =~= before_errors + earlier + seq![
                        MappingError::SamePair { packet_id: id, version: v, earlier: false },
                    ]);
                    assert(before_errors + (earlier + seq![
                        MappingError::SamePair { packet_id: id, version: v, earlier: false },
                    ] + rest.2) =~= errors@ + rest.2);
                }
            },
        }
        q = q + 1;
    }
}

/// An entry found is one for the id.
proof fn lemma_find_id(t: Seq<EntryView>, id: i32, i: int)
    ensures
        find_id(t, id, i) matches Some(p) ==> i <= p < t.len() && t[p].packet_id == id,
    decreases t.len() - i,
{
    if 0 <= i < t.len() && t[i].packet_id != id {
        lemma_find_id(t, id, i + 1);
    }
}

/// A copy of the versions of a claim.
fn copy_claim(m: &Vec<(i32, bool)>) -> (r: Vec<(i32, bool)>)
    ensures
        r@ == m@,
{
    let mut r: Vec<(i32, bool)> = Vec::new();
    let mut i: usize = 0;
    while i < m.len()
        invariant
            i <= m@.len(),
            r@ == m@.take(i as int),
        decreases m@.len() - i,
    {
        r.push(m[i]);
        i = i + 1;
        proof {
            assert(r@ =~= m@.take(i as int));
        }
    }
    proof {
        assert(m@.take(i as int) =~= m@);
    }
    r
}

impl ReceiveMatchMappings {
    /// No packet id claimed yet.
    pub fn new() -> (r: Self)
        ensures
            r@ == Seq::<EntryView>::empty(),
    {
        let r = ReceiveMatchMappings { mappings: Vec::new() };
        proof {
            assert(r@ =~= Seq::<EntryView>::empty());
        }
        r
    }

    /// The entry for the packet id `id`.
    fn find_entry(&self, id: i32) -> (r: Option<usize>)
        ensures
            match r {
                Some(i) => find_id(self@, id, 0) == Some(i as int),
                None => find_id(self@, id, 0) is None,
            },
    {
        let mut i: usize = 0;
        while i < self.mappings.len()
            invariant
                i <= self@.len(),
                self@.len() == self.mappings@.len(),
                find_id(self@, id, 0) == find_id(self@, id, i as int),
            decreases self@.len() - i,
        {
            if self.mappings[i].0.packet_id == id {
                proof {
                    assert(self@[i as int].packet_id == id);
                }
                return Some(i);
            }
            proof {
                assert(self@[i as int].packet_id != id);
            }
            i = i + 1;
        }
        None
    }

    /// The packet type `name` claims `id` in the versions `nm`, as
    /// [`add_one`] describes; the errors are appended to `errors`.
    fn add_claim(&mut self, name: String, id: i32, nm: Vec<(i32, bool)>, errors: &mut Vec<MappingError>)
        ensures
            final(self)@ == add_one(old(self)@, id, name@, nm@).0,
            final(errors)@ == old(errors)@ + add_one(old(self)@, id, name@, nm@).1,
    {
        let ghost t = self@;
        match self.find_entry(id) {
            None => {
                let mut versions: Vec<(String, Vec<(i32, bool)>)> = Vec::new();
                let ghost nv = nm@;
                let ghost nn = name@;
                versions.push((name, nm));
                self.mappings.push(
                    (ReceivePacketID::new(id, None), ReceiveMappings::new(versions)),
                );
                proof {
                    assert(versions_view(versions@) =~= seq![(nn, nv)]);
                    assert(self@ =~= t.push(
                        EntryView { packet_id: id, exclude: None, versions: seq![(nn, nv)] },
                    ));
                    assert(errors@ =~= old(errors)@ + Seq::<MappingError>::empty());
                }
            },
            Some(i) => {
                proof {
                    lemma_find_id(t, id, 0);
                }
                let ghost nv = nm@;
                let ghost nn = name@;
                let ghost errs0 = errors@;
                let (pid, mut maps) = self.mappings.remove(i);
                let ghost e = entry_view((pid, maps));
                assert(e == t[i as int]);
                let ghost c = check_versions(e.versions, nv, 0, id);
                let mut nm = nm;
                check_versions_exec(&mut maps.versions, &mut nm, id, errors);
                if pid.exclude.is_some() {
                    errors.push(MappingError::CapturedForAllVersions { packet_id: id });
                    errors.push(MappingError::VersionsAssignedToCaptured { packet_id: id });
                    proof {
                        assert(errors@ =~= errs0 + (c.2 + seq![
                            MappingError::CapturedForAllVersions { packet_id: id },
                            MappingError::VersionsAssignedToCaptured { packet_id: id },
                        ]));
                        assert(entry_view((pid, maps)) == EntryView { versions: c.0, ..e });
                    }
                } else {
                    let ghost before = maps.versions@;
                    maps.versions.push((name, nm));
                    proof {
                        assert(versions_view(maps.versions@) =~= versions_view(before).push((nn, c.1)));
                        assert(entry_view((pid, maps)) == EntryView {
                            versions: c.0.push((nn, c.1)),
                            ..e
                        });
                    }
                }
                let ghost ne = entry_view((pid, maps));
                self.mappings.insert(i, (pid, maps));
                proof {
                    assert(self@ =~= t.update(i as int, ne));
                }
            },
        }
    }
}

/// The claims of a packet type, as contracts speak of them.
pub open spec fn claims_view(ms: Seq<(i32, Vec<(i32, bool)>)>) -> Seq<(i32, Seq<(i32, bool)>)> {
    Seq::new(ms.len(), |i: int| (ms[i].0, ms[i].1@))
}

/// The claim on an id in all versions, as contracts speak of it.
pub open spec fn exclude_claim_view(ex: Option<(i32, String)>) -> Option<(i32, Seq<char>)> {
    match ex {
        Some((id, name)) => Some((id, name@)),
        None => None,
    }
}

impl ReceiveMatchMappings {
    /// Adds the claims of the packet type `packet_ident`: it takes each
    /// packet id of `mappings` in the protocol versions listed with it, and,
    /// if given, the packet id of `exclude` in all versions. Claims that
    /// clash are reported, each clash where it was found, and the claims
    /// that can be taken are taken (see [`add_packet_spec`]); the result is
    /// an error when any clash was found.
    pub fn add_packet(
        &mut self,
        packet_ident: String,
        claims: (Option<(i32, String)>, Vec<(i32, Vec<(i32, bool)>)>),
    ) -> (r: Result<(), Vec<MappingError>>)
        ensures
            final(self)@ == add_packet_spec(
                old(self)@,
                packet_ident@,
                exclude_claim_view(claims.0),
                claims_view(claims.1@),
            ).0,
            match r {
                Ok(()) => add_packet_spec(
                    old(self)@,
                    packet_ident@,
                    exclude_claim_view(claims.0),
                    claims_view(claims.1@),
                ).1.len() == 0,
                Err(errors) => errors@ == add_packet_spec(
                    old(self)@,
                    packet_ident@,
                    exclude_claim_view(claims.0),
                    claims_view(claims.1@),
                ).1 && errors@.len() > 0,
            },
    {
        let (exclude, mappings) = claims;
        let ghost ms = claims_view(mappings@);
        let ghost name = packet_ident@;
        let ghost t0 = self@;
        let n = mappings.len();
        let mut rest = mappings;
        let mut errors: Vec<MappingError> = Vec::new();
        let mut q: usize = 0;
        proof {
            assert(ms.len() == n);
            assert(claims_view(rest@) =~= ms.skip(0));
            assert(add_all(t0, name, ms, 0).1 =~= errors@ + add_all(self@, name, ms, 0).1);
        }
        while rest.len() > 0
            invariant
                q <= ms.len(),
                ms.len() <= usize::MAX,
                claims_view(rest@) == ms.skip(q as int),
                name == packet_ident@,
                add_all(t0, name, ms, 0).0 == add_all(self@, name, ms, q as int).0,
                add_all(t0, name, ms, 0).1 == errors@ + add_all(self@, name, ms, q as int).1,
            decreases rest@.len(),
        {
            let ghost before = claims_view(rest@);
            let ghost old_rest = rest@;
            let pair = rest.remove(0);
            proof {
                assert(pair == old_rest[0]);
                assert(before[0] == (pair.0, pair.1@));
                assert(before[0] == ms.skip(q as int)[0]);
                assert(rest@ =~= old_rest.skip(1));
                assert(claims_view(rest@) =~= before.skip(1));
                assert(before.skip(1) =~= ms.skip(q + 1));
            }
            let (id, nm) = pair;
            let ghost t = self@;
            let ghost e = errors@;
            self.add_claim(packet_ident.clone(), id, nm, &mut errors);
            proof {
                let first = add_one(t, id, name, ms[q as int].1);
                assert(e + (first.1 + add_all(self@, name, ms, q + 1).1) =~= errors@ + add_all(
                    self@,
                    name,
                    ms,
                    q + 1,
                ).1);
            }
            q = q + 1;
        }
        proof {
            assert(q == ms.len());
        }
        let ghost t1 = self@;
        let ghost e1 = errors@;
        match exclude {
            None => {},
            Some((id, ex_name)) => {
                match self.find_entry(id) {
                    None => {
                        let ghost en = ex_name@;
                        let none: Vec<(String, Vec<(i32, bool)>)> = Vec::new();
                        proof {
                            assert(versions_view(none@) =~= Seq::<TypeClaim>::empty());
                        }
                        self.mappings.push(
                            (ReceivePacketID::new(id, Some(ex_name)), ReceiveMappings::new(none)),
                        );
                        proof {
                            assert(self@ =~= t1.push(
                                EntryView { packet_id: id, exclude: Some(en), versions: Seq::empty() },
                            ));
                        }
                    },
                    Some(i) => {
                        proof {
                            lemma_find_id(t1, id, 0);
                        }
                        if self.mappings[i].0.exclude.is_some() {
                            errors.push(MappingError::MoreThanOneExclude { packet_id: id, earlier: true });
                            errors.push(MappingError::MoreThanOneExclude { packet_id: id, earlier: false });
                        } else {
                            errors.push(MappingError::IdUsedTwice { packet_id: id });
                        }
                    },
                }
            },
        }
        proof {
            let b = add_exclude(t1, exclude_claim_view(exclude));
            assert(errors@ =~= e1 + b.1);
        }
        if errors.len() == 0 {
            Ok(())
        } else {
            Err(errors)
        }
    }
}

/// No version is claimed by two of the packet types `vs`.
pub open spec fn types_apart(vs: Seq<TypeClaim>) -> bool {
    forall|a: int, b: int, x: int, y: int|
        0 <= a < b < vs.len() && 0 <= x < vs[a].1.len() && 0 <= y < vs[b].1.len()
            ==> #[trigger] vs[a].1[x].0 != #[trigger] vs[b].1[y].0
}

/// Each (packet id, protocol version) pair belongs to at most one packet
/// type: the entries are for different packet ids, an id taken in all
/// versions has no claims per version, and no version of an id is claimed
/// by two packet types.
pub open spec fn unambiguous(t: Seq<EntryView>) -> bool {
    &&& forall|a: int, b: int|
        0 <= a < b < t.len() ==> #[trigger] t[a].packet_id != #[trigger] t[b].packet_id
    &&& forall|i: int| 0 <= i < t.len() && (#[trigger] t[i]).exclude is Some ==> t[i].versions.len() == 0
    &&& forall|i: int| 0 <= i < t.len() ==> types_apart(#[trigger] t[i].versions)
}

/// A version not found is claimed by none of the packet types.
proof fn lemma_not_found(vs: Seq<TypeClaim>, v: i32, j: int)
    requires
        0 <= j,
        find_version(vs, v, j) is None,
    ensures
        forall|a: int, x: int| j <= a < vs.len() && 0 <= x < vs[a].1.len() ==> #[trigger] vs[a].1[x].0 != v,
    decreases vs.len() - j,
{
    if j < vs.len() {
        lemma_not_found(vs, v, j + 1);
        lemma_not_in(vs[j].1, v, 0);
    }
}

/// A version not found in `m` from `k` on is not there.
proof fn lemma_not_in(m: Seq<(i32, bool)>, v: i32, k: int)
    requires
        0 <= k,
        find_in(m, v, k) is None,
    ensures
        forall|x: int| k <= x < m.len() ==> #[trigger] m[x].0 != v,
    decreases m.len() - k,
{
    if k < m.len() {
        lemma_not_in(m, v, k + 1);
    }
}

/// Checking a claim that meets no clash reports nothing and changes
/// nothing; a check that reports nothing met no clash.
proof fn lemma_check_quiet(vs: Seq<TypeClaim>, nm: Seq<(i32, bool)>, q: int, id: i32)
    requires
        0 <= q,
        check_versions(vs, nm, q, id).2.len() == 0,
    ensures
        check_versions(vs, nm, q, id).0 == vs,
        check_versions(vs, nm, q, id).1 == nm,
        forall|p: int, a: int, x: int|
            q <= p < nm.len() && 0 <= a < vs.len() && 0 <= x < vs[a].1.len() ==> #[trigger] vs[a].1[x].0
                != #[trigger] nm[p].0,
    decreases nm.len() - q,
{
    if q < nm.len() {
        let v = nm[q].0;
        match find_version(vs, v, 0) {
            None => {
                lemma_check_quiet(vs, nm, q + 1, id);
                lemma_not_found(vs, v, 0);
            },
            Some((j, k)) => {
                let rest = check_versions(
                    vs.update(j, (vs[j].0, vs[j].1.update(k, (vs[j].1[k].0, true)))),
                    nm.update(q, (v, true)),
                    q + 1,
                    id,
                );
                let earlier: Seq<MappingError> = if vs[j].1[k].1 {
                    Seq::empty()
                } else {
                    seq![MappingError::SamePair { packet_id: id, version: v, earlier: true }]
                };
                assert((earlier + seq![
                    MappingError::SamePair { packet_id: id, version: v, earlier: false },
                ] + rest.2).len() > 0);
            },
        }
    }
}

/// Claiming an id in given versions without an error keeps the claims
/// unambiguous.
proof fn lemma_add_one_apart(t: Seq<EntryView>, id: i32, name: Seq<char>, nm: Seq<(i32, bool)>)
    requires
        unambiguous(t),
        add_one(t, id, name, nm).1.len() == 0,
    ensures
        unambiguous(add_one(t, id, name, nm).0),
{
    lemma_find_id(t, id, 0);
    let t1 = add_one(t, id, name, nm).0;
    match find_id(t, id, 0) {
        None => {
            lemma_no_id(t, id, 0);
            assert forall|a: int, b: int| 0 <= a < b < t1.len() implies #[trigger] t1[a].packet_id
                != #[trigger] t1[b].packet_id by {
                if b == t.len() {
                    assert(t1[a] == t[a]);
                }
            }
            let vs = seq![(name, nm)];
            assert(types_apart(vs));
            assert forall|i: int| 0 <= i < t1.len() implies types_apart(#[trigger] t1[i].versions) by {
                if i < t.len() {
                    assert(t1[i] == t[i]);
                }
            }
        },
        Some(i) => {
            let c = check_versions(t[i].versions, nm, 0, id);
            assert(!(t[i].exclude is Some));
            lemma_check_quiet(t[i].versions, nm, 0, id);
            let vs = t[i].versions;
            let vs1 = vs.push((name, nm));
            assert(t1[i].versions == vs1);
            assert forall|a: int, b: int, x: int, y: int|
                0 <= a < b < vs1.len() && 0 <= x < vs1[a].1.len() && 0 <= y < vs1[b].1.len()
                implies #[trigger] vs1[a].1[x].0 != #[trigger] vs1[b].1[y].0 by {
                if b == vs.len() {
                    assert(vs1[b].1 == nm);
                    assert(vs1[a] == vs[a]);
                    assert(vs[a].1[x].0 != nm[y].0);
                } else {
                    assert(types_apart(vs));
                    assert(vs1[a] == vs[a] && vs1[b] == vs[b]);
                }
            }
            assert(types_apart(vs1));
            assert forall|p: int| 0 <= p < t1.len() implies types_apart(#[trigger] t1[p].versions) by {
                if p != i {
                    assert(t1[p] == t[p]);
                }
            }
            assert forall|a: int, b: int| 0 <= a < b < t1.len() implies #[trigger] t1[a].packet_id
                != #[trigger] t1[b].packet_id by {
                assert(t1[a].packet_id == t[a].packet_id);
                assert(t1[b].packet_id == t[b].packet_id);
            }
            assert forall|p: int| 0 <= p < t1.len() && (#[trigger] t1[p]).exclude is Some implies t1[p].versions.len() == 0 by {
                if p != i {
                    assert(t1[p] == t[p]);
                }
            }
        },
    }
}

/// No entry from `i` on is for an id not found.
proof fn lemma_no_id(t: Seq<EntryView>, id: i32, i: int)
    requires
        0 <= i,
        find_id(t, id, i) is None,
    ensures
        forall|a: int| i <= a < t.len() ==> #[trigger] t[a].packet_id != id,
    decreases t.len() - i,
{
    if i < t.len() {
        lemma_no_id(t, id, i + 1);
    }
}

/// Claims made one after the other without an error keep the claims
/// unambiguous.
proof fn lemma_add_all_apart(
    t: Seq<EntryView>,
    name: Seq<char>,
    ms: Seq<(i32, Seq<(i32, bool)>)>,
    q: int,
)
    requires
        unambiguous(t),
        add_all(t, name, ms, q).1.len() == 0,
    ensures
        unambiguous(add_all(t, name, ms, q).0),
    decreases ms.len() - q,
{
    if 0 <= q < ms.len() {
        let first = add_one(t, ms[q].0, name, ms[q].1);
        let rest = add_all(first.0, name, ms, q + 1);
        assert((first.1 + rest.1).len() == 0);
        lemma_add_one_apart(t, ms[q].0, name, ms[q].1);
        lemma_add_all_apart(first.0, name, ms, q + 1);
    }
}

/// Taking an id in all versions without an error keeps the claims
/// unambiguous.
proof fn lemma_add_exclude_apart(t: Seq<EntryView>, ex: Option<(i32, Seq<char>)>)
    requires
        unambiguous(t),
        add_exclude(t, ex).1.len() == 0,
    ensures
        unambiguous(add_exclude(t, ex).0),
{
    if let Some((id, name)) = ex {
        if find_id(t, id, 0) is None {
            lemma_no_id(t, id, 0);
            let t1 = add_exclude(t, ex).0;
            assert forall|a: int, b: int| 0 <= a < b < t1.len() implies #[trigger] t1[a].packet_id
                != #[trigger] t1[b].packet_id by {
                if b == t.len() {
                    assert(t1[a] == t[a]);
                }
            }
            assert(types_apart(Seq::<TypeClaim>::empty()));
            assert forall|i: int| 0 <= i < t1.len() implies types_apart(#[trigger] t1[i].versions) by {
                if i < t.len() {
                    assert(t1[i] == t[i]);
                }
            }
        }
    }
}

/// Claims taken without an error keep every (packet id, protocol version)
/// pair with at most one packet type, and an id taken in all versions with
/// no packet type per version: a packet is never read as two types.
pub proof fn law_accepted_claims_unambiguous(
    t: Seq<EntryView>,
    name: Seq<char>,
    ex: Option<(i32, Seq<char>)>,
    ms: Seq<(i32, Seq<(i32, bool)>)>,
)
    requires
        unambiguous(t),
        add_packet_spec(t, name, ex, ms).1.len() == 0,
    ensures
        unambiguous(add_packet_spec(t, name, ex, ms).0),
{
    let a = add_all(t, name, ms, 0);
    let b = add_exclude(a.0, ex);
    assert((a.1 + b.1).len() == 0);
    lemma_add_all_apart(t, name, ms, 0);
    lemma_add_exclude_apart(a.0, ex);
}

/// The packet type a packet with the id `packet_id`, received in the
/// protocol version `protocol_id`, is read as: the type that takes the id in
/// all versions, or else the first type that claims the id in that version;
/// none when no type does.
pub open spec fn dispatch(t: Seq<EntryView>, packet_id: i32, protocol_id: i32) -> Option<Seq<char>> {
    match find_id(t, packet_id, 0) {
        None => None,
        Some(i) => match t[i].exclude {
            Some(name) => Some(name),
            None => match find_version(t[i].versions, protocol_id, 0) {
                Some((j, k)) => Some(t[i].versions[j].0),
                None => None,
            },
        },
    }
}

impl ReceiveMatchMappings {
    /// The packet type a packet with the id `packet_id`, received in the
    /// protocol version `protocol_id`, is read as (see [`dispatch`]), as the
    /// match over packet ids and versions that is built from the claims
    /// decides it.
    pub fn packet_type(&self, packet_id: i32, protocol_id: i32) -> (r: Option<String>)
        ensures
            exclude_view(r) == dispatch(self@, packet_id, protocol_id),
    {
        match self.find_entry(packet_id) {
            None => None,
            Some(i) => {
                proof {
                    lemma_find_id(self@, packet_id, 0);
                }
                let entry = &self.mappings[i];
                assert(entry_view(*entry) == self@[i as int]);
                match &entry.0.exclude {
                    Some(name) => Some(name.clone()),
                    None => {
                        proof {
                            lemma_find_version(self@[i as int].versions, protocol_id, 0);
                        }
                        match find_version_exec(&entry.1.versions, protocol_id) {
                            Some((j, _)) => Some(entry.1.versions[j].0.clone()),
                            None => None,
                        }
                    },
                }
            },
        }
    }
}

/// On unambiguous claims, a packet goes to the packet type that claimed its
/// id in its protocol version, or that took its id in all versions.
pub proof fn law_dispatch_to_claimant(t: Seq<EntryView>, i: int, j: int, x: int, protocol_id: i32)
    requires
        unambiguous(t),
        0 <= i < t.len(),
        0 <= j < t[i].versions.len(),
        0 <= x < t[i].versions[j].1.len(),
        t[i].versions[j].1[x].0 == protocol_id,
    ensures
        dispatch(t, t[i].packet_id, protocol_id) == Some(t[i].versions[j].0),
{
    let id = t[i].packet_id;
    lemma_find_id(t, id, 0);
    if find_id(t, id, 0) is None {
        lemma_no_id(t, id, 0);
    }
    let i0 = find_id(t, id, 0)->0;
    if i0 != i {
        if i0 < i {
            assert(t[i0].packet_id != t[i].packet_id);
        } else {
            assert(t[i].packet_id != t[i0].packet_id);
        }
    }
    assert(t[i].exclude is None);
    let vs = t[i].versions;
    lemma_find_version(vs, protocol_id, 0);
    if find_version(vs, protocol_id, 0) is None {
        lemma_not_found(vs, protocol_id, 0);
        assert(vs[j].1[x].0 != protocol_id);
    }
    let (j0, k0) = find_version(vs, protocol_id, 0)->0;
    assert(types_apart(t[i].versions));
    if j0 < j {
        assert(vs[j0].1[k0].0 != vs[j].1[x].0);
    } else if j < j0 {
        assert(vs[j].1[x].0 != vs[j0].1[k0].0);
    }
}

/// A packet whose id a packet type takes in all versions goes to that type,
/// in every version.
pub proof fn law_dispatch_captured(t: Seq<EntryView>, i: int, protocol_id: i32)
    requires
        unambiguous(t),
        0 <= i < t.len(),
        t[i].exclude is Some,
    ensures
        dispatch(t, t[i].packet_id, protocol_id) == t[i].exclude,
{
    let id = t[i].packet_id;
    lemma_find_id(t, id, 0);
    if find_id(t, id, 0) is None {
        lemma_no_id(t, id, 0);
    }
    let i0 = find_id(t, id, 0)->0;
    if i0 != i {
        if i0 < i {
            assert(t[i0].packet_id != t[i].packet_id);
        } else {
            assert(t[i].packet_id != t[i0].packet_id);
        }
    }
}

/// A packet whose id no packet type takes in all versions, and that no
/// packet type claims in its protocol version, is read as no type.
pub proof fn law_dispatch_unclaimed(t: Seq<EntryView>, packet_id: i32, protocol_id: i32)
    requires
        forall|i: int| 0 <= i < t.len() && #[trigger] t[i].packet_id == packet_id ==> t[i].exclude is None,
        forall|i: int, j: int, x: int|
            0 <= i < t.len() && t[i].packet_id == packet_id && 0 <= j < t[i].versions.len() && 0 <= x
                < t[i].versions[j].1.len() ==> #[trigger] t[i].versions[j].1[x].0 != protocol_id,
    ensures
        dispatch(t, packet_id, protocol_id) is None,
{
    lemma_find_id(t, packet_id, 0);
    if let Some(i) = find_id(t, packet_id, 0) {
        assert(t[i].exclude is None);
        lemma_find_version(t[i].versions, protocol_id, 0);
        if let Some((j, x)) = find_version(t[i].versions, protocol_id, 0) {
            assert(t[i].versions[j].1[x].0 != protocol_id);
        }
    }
}

/// No packet type takes `id` in all versions.
pub open spec fn uncaptured(t: Seq<EntryView>, id: i32) -> bool {
    forall|i: int| 0 <= i < t.len() && #[trigger] t[i].packet_id == id ==> t[i].exclude is None
}

/// No packet type claims `id` in the version `v`.
pub open spec fn unclaimed(t: Seq<EntryView>, id: i32, v: i32) -> bool {
    forall|i: int, j: int, y: int|
        0 <= i < t.len() && t[i].packet_id == id && 0 <= j < t[i].versions.len() && 0 <= y
            < t[i].versions[j].1.len() ==> #[trigger] t[i].versions[j].1[y].0 != v
}

/// No entry is for `id`.
pub open spec fn id_free(t: Seq<EntryView>, id: i32) -> bool {
    forall|i: int| 0 <= i < t.len() ==> #[trigger] t[i].packet_id != id
}

/// The claims `ms`, from the `q`th on, can all be taken on `t`: no id they
/// claim is taken in all versions, no version they claim is claimed already
/// under the same id, and no two of them claim the same version of the same
/// id.
pub open spec fn claims_accepted(t: Seq<EntryView>, ms: Seq<(i32, Seq<(i32, bool)>)>, q: int) -> bool {
    &&& forall|r: int| q <= r < ms.len() ==> uncaptured(t, #[trigger] ms[r].0)
    &&& forall|r: int, x: int|
        q <= r < ms.len() && 0 <= x < ms[r].1.len() ==> unclaimed(t, ms[r].0, #[trigger] ms[r].1[x].0)
    &&& forall|p: int, r: int, y: int, x: int|
        q <= p < r < ms.len() && ms[p].0 == ms[r].0 && 0 <= y < ms[p].1.len() && 0 <= x
            < ms[r].1.len() ==> #[trigger] ms[p].1[y].0 != #[trigger] ms[r].1[x].0
}

/// Checking a claim reports nothing exactly when none of its versions, from
/// the `q`th on, is claimed already.
proof fn lemma_check_errors(vs: Seq<TypeClaim>, nm: Seq<(i32, bool)>, q: int, id: i32)
    requires
        0 <= q,
    ensures
        (check_versions(vs, nm, q, id).2.len() == 0) == (forall|p: int|
            q <= p < nm.len() ==> find_version(vs, #[trigger] nm[p].0, 0) is None),
    decreases nm.len() - q,
{
    if q < nm.len() {
        lemma_check_errors(vs, nm, q + 1, id);
        if check_versions(vs, nm, q, id).2.len() == 0 {
            lemma_check_quiet(vs, nm, q, id);
            assert forall|p: int| q <= p < nm.len() implies find_version(vs, #[trigger] nm[p].0, 0) is None by {
                lemma_find_version(vs, nm[p].0, 0);
                if let Some((a, b)) = find_version(vs, nm[p].0, 0) {
                    assert(vs[a].1[b].0 != nm[p].0);
                }
            }
        } else {
            let v = nm[q].0;
            if find_version(vs, v, 0) is None {
                assert(check_versions(vs, nm, q, id) == check_versions(vs, nm, q + 1, id));
            }
        }
    }
}

/// On claims with distinct ids, claiming `id` in the versions `nm` meets
/// no error exactly when nobody takes `id` in all versions and none of
/// the versions is claimed under `id` already.
proof fn lemma_add_one_accepted(t: Seq<EntryView>, id: i32, name: Seq<char>, nm: Seq<(i32, bool)>)
    requires
        unambiguous(t),
    ensures
        (add_one(t, id, name, nm).1.len() == 0) == (uncaptured(t, id) && forall|x: int|
            0 <= x < nm.len() ==> unclaimed(t, id, #[trigger] nm[x].0)),
{
    lemma_find_id(t, id, 0);
    match find_id(t, id, 0) {
        None => {
            lemma_no_id(t, id, 0);
        },
        Some(i) => {
            let vs = t[i].versions;
            assert forall|i2: int| 0 <= i2 < t.len() && #[trigger] t[i2].packet_id == id implies i2 == i by {
                if i2 < i {
                    assert(t[i2].packet_id != t[i].packet_id);
                } else if i < i2 {
                    assert(t[i].packet_id != t[i2].packet_id);
                }
            }
            lemma_check_errors(vs, nm, 0, id);
            assert forall|x: int| 0 <= x < nm.len() implies unclaimed(t, id, #[trigger] nm[x].0)
                == (find_version(vs, nm[x].0, 0) is None) by {
                lemma_find_version(vs, nm[x].0, 0);
                if find_version(vs, nm[x].0, 0) is None {
                    lemma_not_found(vs, nm[x].0, 0);
                } else {
                    let (a, b) = find_version(vs, nm[x].0, 0)->0;
                    assert(t[i].versions[a].1[b].0 == nm[x].0);
                }
            }
            let c = check_versions(vs, nm, 0, id);
            if t[i].exclude is Some {
                assert((c.2 + seq![
                    MappingError::CapturedForAllVersions { packet_id: id },
                    MappingError::VersionsAssignedToCaptured { packet_id: id },
                ]).len() > 0);
            }
        },
    }
}

/// After a claim on `id` in the versions `nm` is taken without an error,
/// an id is taken in all versions as before; a version is claimed under an
/// id when it was before or the new claim claims it; and the ids used are
/// those before and `id`.
proof fn lemma_add_one_after(
    t: Seq<EntryView>,
    id: i32,
    name: Seq<char>,
    nm: Seq<(i32, bool)>,
    id2: i32,
    v: i32,
)
    requires
        unambiguous(t),
        add_one(t, id, name, nm).1.len() == 0,
    ensures
        uncaptured(add_one(t, id, name, nm).0, id2) == uncaptured(t, id2),
        unclaimed(add_one(t, id, name, nm).0, id2, v) == (unclaimed(t, id2, v) && (id2 == id
            ==> forall|x: int| 0 <= x < nm.len() ==> #[trigger] nm[x].0 != v)),
        id_free(add_one(t, id, name, nm).0, id2) == (id_free(t, id2) && id2 != id),
{
    lemma_find_id(t, id, 0);
    let t1 = add_one(t, id, name, nm).0;
    match find_id(t, id, 0) {
        None => {
            lemma_no_id(t, id, 0);
            let n = t.len() as int;
            assert(t1[n].versions == seq![(name, nm)]);
            assert(uncaptured(t1, id2) == uncaptured(t, id2)) by {
                if uncaptured(t, id2) {
                    assert forall|i: int| 0 <= i < t1.len() && #[trigger] t1[i].packet_id == id2 implies t1[i].exclude is None by {
                        if i < n {
                            assert(t1[i] == t[i]);
                        }
                    }
                } else {
                    let i = choose|i: int| 0 <= i < t.len() && #[trigger] t[i].packet_id == id2 && !(t[i].exclude is None);
                    assert(t1[i] == t[i]);
                }
            }
            assert(unclaimed(t1, id2, v) == (unclaimed(t, id2, v) && (id2 == id ==> forall|x: int|
                0 <= x < nm.len() ==> #[trigger] nm[x].0 != v))) by {
                if unclaimed(t1, id2, v) {
                    assert forall|i: int, j: int, y: int|
                        0 <= i < t.len() && t[i].packet_id == id2 && 0 <= j < t[i].versions.len() && 0 <= y
                            < t[i].versions[j].1.len() implies #[trigger] t[i].versions[j].1[y].0 != v by {
                        assert(t1[i] == t[i]);
                        assert(t1[i].versions[j].1[y].0 != v);
                    }
                    if id2 == id {
                        assert forall|x: int| 0 <= x < nm.len() implies #[trigger] nm[x].0 != v by {
                            assert(t1[n].versions[0].1[x] == nm[x]);
                            assert(t1[n].versions[0].1[x].0 != v);
                        }
                    }
                } else {
                    let (i, j, y) = choose|i: int, j: int, y: int|
                        0 <= i < t1.len() && t1[i].packet_id == id2 && 0 <= j < t1[i].versions.len() && 0
                            <= y < t1[i].versions[j].1.len() && !(#[trigger] t1[i].versions[j].1[y].0 != v);
                    if i < n {
                        assert(t1[i] == t[i]);
                    } else {
                        assert(j == 0);
                        assert(nm[y].0 == v);
                    }
                }
            }
            assert(id_free(t1, id2) == (id_free(t, id2) && id2 != id)) by {
                if id_free(t, id2) && id2 != id {
                    assert forall|i: int| 0 <= i < t1.len() implies #[trigger] t1[i].packet_id != id2 by {
                        if i < n {
                            assert(t1[i] == t[i]);
                        }
                    }
                } else if id2 == id {
                    assert(t1[n].packet_id == id);
                } else {
                    let i = choose|i: int| 0 <= i < t.len() && !(#[trigger] t[i].packet_id != id2);
                    assert(t1[i] == t[i]);
                }
            }
        },
        Some(i) => {
            let vs = t[i].versions;
            lemma_check_quiet(vs, nm, 0, id);
            let vs1 = vs.push((name, nm));
            assert(t1[i].versions == vs1);
            assert(t1[i].packet_id == id && t1[i].exclude == t[i].exclude);
            assert(uncaptured(t1, id2) == uncaptured(t, id2)) by {
                if uncaptured(t, id2) {
                    assert forall|k: int| 0 <= k < t1.len() && #[trigger] t1[k].packet_id == id2 implies t1[k].exclude is None by {
                        assert(t[k].packet_id == t1[k].packet_id && t[k].exclude == t1[k].exclude);
                    }
                } else {
                    let k = choose|k: int| 0 <= k < t.len() && #[trigger] t[k].packet_id == id2 && !(t[k].exclude is None);
                    assert(t[k].packet_id == t1[k].packet_id && t[k].exclude == t1[k].exclude);
                }
            }
            assert(id_free(t1, id2) == (id_free(t, id2) && id2 != id)) by {
                if id_free(t, id2) {
                    assert forall|k: int| 0 <= k < t1.len() implies #[trigger] t1[k].packet_id != id2 by {
                        assert(t[k].packet_id == t1[k].packet_id);
                    }
                } else {
                    let k = choose|k: int| 0 <= k < t.len() && !(#[trigger] t[k].packet_id != id2);
                    assert(t[k].packet_id == t1[k].packet_id);
                }
            }
            assert(unclaimed(t1, id2, v) == (unclaimed(t, id2, v) && (id2 == id ==> forall|x: int|
                0 <= x < nm.len() ==> #[trigger] nm[x].0 != v))) by {
                if unclaimed(t1, id2, v) {
                    assert forall|k: int, j: int, y: int|
                        0 <= k < t.len() && t[k].packet_id == id2 && 0 <= j < t[k].versions.len() && 0 <= y
                            < t[k].versions[j].1.len() implies #[trigger] t[k].versions[j].1[y].0 != v by {
                        if k == i {
                            assert(t1[k].versions[j] == vs[j]);
                            assert(t1[k].versions[j].1[y].0 != v);
                        } else {
                            assert(t1[k] == t[k]);
                            assert(t1[k].versions[j].1[y].0 != v);
                        }
                    }
                    if id2 == id {
                        assert forall|x: int| 0 <= x < nm.len() implies #[trigger] nm[x].0 != v by {
                            let j = vs.len() as int;
                            assert(t1[i].versions[j].1[x] == nm[x]);
                            assert(t1[i].versions[j].1[x].0 != v);
                        }
                    }
                } else {
                    let (k, j, y) = choose|k: int, j: int, y: int|
                        0 <= k < t1.len() && t1[k].packet_id == id2 && 0 <= j < t1[k].versions.len() && 0
                            <= y < t1[k].versions[j].1.len() && !(#[trigger] t1[k].versions[j].1[y].0 != v);
                    if k == i {
                        if j < vs.len() {
                            assert(t1[k].versions[j] == t[k].versions[j]);
                        } else {
                            assert(t1[k].versions[j].1 == nm);
                            assert(nm[y].0 == v);
                        }
                    } else {
                        assert(t1[k] == t[k]);
                    }
                }
            }
        },
    }
}

/// The claims `ms`, from the `q`th on, are taken without an error exactly
/// when they are accepted; the ids then used are those before and theirs.
proof fn lemma_add_all_accepted(
    t: Seq<EntryView>,
    name: Seq<char>,
    ms: Seq<(i32, Seq<(i32, bool)>)>,
    q: int,
    eid: i32,
)
    requires
        unambiguous(t),
        0 <= q,
    ensures
        (add_all(t, name, ms, q).1.len() == 0) == claims_accepted(t, ms, q),
        add_all(t, name, ms, q).1.len() == 0 ==> (id_free(add_all(t, name, ms, q).0, eid) == (id_free(
            t,
            eid,
        ) && forall|r: int| q <= r < ms.len() ==> #[trigger] ms[r].0 != eid)),
    decreases ms.len() - q,
{
    if q >= ms.len() {
    } else {
        let first = add_one(t, ms[q].0, name, ms[q].1);
        let t1 = first.0;
        let rest = add_all(t1, name, ms, q + 1);
        lemma_add_one_accepted(t, ms[q].0, name, ms[q].1);
        if first.1.len() > 0 {
            assert((first.1 + rest.1).len() > 0);
            assert(!claims_accepted(t, ms, q)) by {
                if claims_accepted(t, ms, q) {
                    assert(uncaptured(t, ms[q].0));
                    assert forall|x: int| 0 <= x < ms[q].1.len() implies unclaimed(t, ms[q].0, #[trigger] ms[q].1[x].0) by {
                        assert(unclaimed(t, ms[q].0, ms[q].1[x].0));
                    }
                }
            }
        } else {
            lemma_add_one_apart(t, ms[q].0, name, ms[q].1);
            lemma_add_all_accepted(t1, name, ms, q + 1, eid);
            assert((first.1 + rest.1) =~= rest.1);
            assert forall|id2: i32, v: i32| #![trigger unclaimed(t1, id2, v)]
                unclaimed(t1, id2, v) == (unclaimed(t, id2, v) && (id2 == ms[q].0 ==> forall|x: int|
                    0 <= x < ms[q].1.len() ==> #[trigger] ms[q].1[x].0 != v)) by {
                lemma_add_one_after(t, ms[q].0, name, ms[q].1, id2, v);
            }
            assert forall|id2: i32| #![trigger uncaptured(t1, id2)] uncaptured(t1, id2) == uncaptured(t, id2) by {
                lemma_add_one_after(t, ms[q].0, name, ms[q].1, id2, 0);
            }
            lemma_add_one_after(t, ms[q].0, name, ms[q].1, eid, 0);
            assert(claims_accepted(t, ms, q) == claims_accepted(t1, ms, q + 1)) by {
                if claims_accepted(t, ms, q) {
                    assert forall|r: int| q + 1 <= r < ms.len() implies uncaptured(t1, #[trigger] ms[r].0) by {
                        assert(uncaptured(t, ms[r].0));
                    }
                    assert forall|r: int, x: int|
                        q + 1 <= r < ms.len() && 0 <= x < ms[r].1.len() implies unclaimed(
                        t1,
                        ms[r].0,
                        #[trigger] ms[r].1[x].0,
                    ) by {
                        assert(unclaimed(t, ms[r].0, ms[r].1[x].0));
                        if ms[r].0 == ms[q].0 {
                            assert forall|y: int| 0 <= y < ms[q].1.len() implies #[trigger] ms[q].1[y].0
                                != ms[r].1[x].0 by {
                                assert(ms[q].1[y].0 != ms[r].1[x].0);
                            }
                        }
                    }
                } else if claims_accepted(t1, ms, q + 1) {
                    assert forall|r: int| q <= r < ms.len() implies uncaptured(t, #[trigger] ms[r].0) by {
                        if r > q {
                            assert(uncaptured(t1, ms[r].0));
                        }
                    }
                    assert forall|r: int, x: int|
                        q <= r < ms.len() && 0 <= x < ms[r].1.len() implies unclaimed(
                        t,
                        ms[r].0,
                        #[trigger] ms[r].1[x].0,
                    ) by {
                        if r > q {
                            assert(unclaimed(t1, ms[r].0, ms[r].1[x].0));
                        }
                    }
                    assert forall|p: int, r: int, y: int, x: int|
                        q <= p < r < ms.len() && ms[p].0 == ms[r].0 && 0 <= y < ms[p].1.len() && 0 <= x
                            < ms[r].1.len() implies #[trigger] ms[p].1[y].0 != #[trigger] ms[r].1[x].0 by {
                        if p == q {
                            assert(unclaimed(t1, ms[r].0, ms[r].1[x].0));
                        }
                    }
                }
            }
        }
    }
}

/// When the claims of a packet type are taken: exactly when no id it claims
/// per version is taken in all versions, no version it claims is claimed
/// already under the same id, its claims do not claim the same version of
/// the same id twice, and the id it takes in all versions, if any, is used
/// neither before nor by its own claims.
pub proof fn law_add_packet_accepts(
    t: Seq<EntryView>,
    name: Seq<char>,
    ex: Option<(i32, Seq<char>)>,
    ms: Seq<(i32, Seq<(i32, bool)>)>,
)
    requires
        unambiguous(t),
    ensures
        (add_packet_spec(t, name, ex, ms).1.len() == 0) == (claims_accepted(t, ms, 0) && (ex matches Some(
            (eid, ename),
        ) ==> id_free(t, eid) && forall|r: int| 0 <= r < ms.len() ==> #[trigger] ms[r].0 != eid)),
{
    let eid: i32 = match ex {
        Some((e, _)) => e,
        None => 0,
    };
    lemma_add_all_accepted(t, name, ms, 0, eid);
    let a = add_all(t, name, ms, 0);
    let b = add_exclude(a.0, ex);
    if let Some((e, ename)) = ex {
        lemma_find_id(a.0, e, 0);
        if find_id(a.0, e, 0) is None {
            lemma_no_id(a.0, e, 0);
        }
        if a.1.len() == 0 {
            assert(a.1 + b.1 =~= b.1);
        }
    } else {
        assert(a.1 + b.1 =~= a.1);
    }
}

/// The packet type `name` claims the id `id` in the version `v`.
spec fn claimed_by(t: Seq<EntryView>, id: i32, v: i32, name: Seq<char>) -> bool {
    exists|i: int, j: int, y: int|
        0 <= i < t.len() && t[i].packet_id == id && 0 <= j < t[i].versions.len()
            && t[i].versions[j].0 == name && 0 <= y < t[i].versions[j].1.len()
            && (#[trigger] t[i].versions[j].1[y]).0 == v
}

/// A claim taken without an error is in the claims afterwards, and every
/// claim made before stays.
proof fn lemma_add_one_claims(t: Seq<EntryView>, id: i32, name: Seq<char>, nm: Seq<(i32, bool)>)
    requires
        add_one(t, id, name, nm).1.len() == 0,
    ensures
        forall|y: int| 0 <= y < nm.len() ==> claimed_by(add_one(t, id, name, nm).0, id, #[trigger] nm[y].0, name),
        forall|id2: i32, v2: i32, n2: Seq<char>|
            #[trigger] claimed_by(t, id2, v2, n2) ==> claimed_by(add_one(t, id, name, nm).0, id2, v2, n2),
{
    let t1 = add_one(t, id, name, nm).0;
    lemma_find_id(t, id, 0);
    match find_id(t, id, 0) {
        None => {
            assert forall|y: int| 0 <= y < nm.len() implies claimed_by(t1, id, #[trigger] nm[y].0, name) by {
                let k = t.len() as int;
                assert(t1[k].versions[0].1 == nm);
                assert(t1[k].versions[0].1[y].0 == nm[y].0);
            }
            assert forall|id2: i32, v2: i32, n2: Seq<char>| #[trigger] claimed_by(t, id2, v2, n2) implies claimed_by(
                t1,
                id2,
                v2,
                n2,
            ) by {
                let (a, j, y) = choose|a: int, j: int, y: int|
                    0 <= a < t.len() && t[a].packet_id == id2 && 0 <= j < t[a].versions.len()
                        && t[a].versions[j].0 == n2 && 0 <= y < t[a].versions[j].1.len()
                        && (#[trigger] t[a].versions[j].1[y]).0 == v2;
                assert(t1[a] == t[a]);
                assert(t1[a].versions[j].1[y] == t[a].versions[j].1[y]);
            }
        },
        Some(i) => {
            let c = check_versions(t[i].versions, nm, 0, id);
            assert(!(t[i].exclude is Some)) by {
                if t[i].exclude is Some {
                    assert((c.2 + seq![
                        MappingError::CapturedForAllVersions { packet_id: id },
                        MappingError::VersionsAssignedToCaptured { packet_id: id },
                    ]).len() > 0);
                }
            }
            lemma_check_quiet(t[i].versions, nm, 0, id);
            let vs = t[i].versions;
            let vs1 = vs.push((name, nm));
            assert(t1[i].versions == vs1);
            assert forall|y: int| 0 <= y < nm.len() implies claimed_by(t1, id, #[trigger] nm[y].0, name) by {
                let k = vs.len() as int;
                assert(t1[i].versions[k].1 == nm);
                assert(t1[i].versions[k].1[y].0 == nm[y].0);
            }
            assert forall|id2: i32, v2: i32, n2: Seq<char>| #[trigger] claimed_by(t, id2, v2, n2) implies claimed_by(
                t1,
                id2,
                v2,
                n2,
            ) by {
                let (a, j, y) = choose|a: int, j: int, y: int|
                    0 <= a < t.len() && t[a].packet_id == id2 && 0 <= j < t[a].versions.len()
                        && t[a].versions[j].0 == n2 && 0 <= y < t[a].versions[j].1.len()
                        && (#[trigger] t[a].versions[j].1[y]).0 == v2;
                if a == i {
                    assert(t1[a].versions[j] == t[a].versions[j]);
                    assert(t1[a].versions[j].1[y] == t[a].versions[j].1[y]);
                } else {
                    assert(t1[a] == t[a]);
                    assert(t1[a].versions[j].1[y] == t[a].versions[j].1[y]);
                }
            }
        },
    }
}

/// Claims taken one after the other without an error are all in the claims
/// afterwards, and every claim made before stays.
proof fn lemma_add_all_claims(t: Seq<EntryView>, name: Seq<char>, ms: Seq<(i32, Seq<(i32, bool)>)>, q: int)
    requires
        0 <= q,
        add_all(t, name, ms, q).1.len() == 0,
    ensures
        forall|r: int, x: int|
            q <= r < ms.len() && 0 <= x < ms[r].1.len() ==> claimed_by(
                add_all(t, name, ms, q).0,
                ms[r].0,
                #[trigger] ms[r].1[x].0,
                name,
            ),
        forall|id2: i32, v2: i32, n2: Seq<char>|
            #[trigger] claimed_by(t, id2, v2, n2) ==> claimed_by(add_all(t, name, ms, q).0, id2, v2, n2),
    decreases ms.len() - q,
{
    if q < ms.len() {
        let first = add_one(t, ms[q].0, name, ms[q].1);
        let rest = add_all(first.0, name, ms, q + 1);
        assert((first.1 + rest.1).len() == 0);
        lemma_add_one_claims(t, ms[q].0, name, ms[q].1);
        lemma_add_all_claims(first.0, name, ms, q + 1);
        assert forall|r: int, x: int| q <= r < ms.len() && 0 <= x < ms[r].1.len() implies claimed_by(
            rest.0,
            ms[r].0,
            #[trigger] ms[r].1[x].0,
            name,
        ) by {
            if r == q {
                assert(claimed_by(first.0, ms[q].0, ms[q].1[x].0, name));
            }
        }
    }
}

/// Every pair of a packet id and a protocol version that a packet type
/// claims, once its claims are taken without an error, is read as that
/// packet type; so is the id it takes in all versions, in every version.
pub proof fn law_add_packet_maps_claims(
    t: Seq<EntryView>,
    name: Seq<char>,
    ex: Option<(i32, Seq<char>)>,
    ms: Seq<(i32, Seq<(i32, bool)>)>,
)
    requires
        unambiguous(t),
        add_packet_spec(t, name, ex, ms).1.len() == 0,
    ensures
        forall|q: int, x: int|
            0 <= q < ms.len() && 0 <= x < ms[q].1.len() ==> dispatch(
                add_packet_spec(t, name, ex, ms).0,
                ms[q].0,
                #[trigger] ms[q].1[x].0,
            ) == Some(name),
        ex matches Some((eid, ename)) ==> forall|v: i32|
            #[trigger] dispatch(add_packet_spec(t, name, ex, ms).0, eid, v) == Some(ename),
{
    let a = add_all(t, name, ms, 0);
    let b = add_exclude(a.0, ex);
    let fin = b.0;
    assert((a.1 + b.1).len() == 0);
    assert(a.1.len() == 0 && b.1.len() == 0);
    law_accepted_claims_unambiguous(t, name, ex, ms);
    lemma_add_all_claims(t, name, ms, 0);
    if let Some((eid, ename)) = ex {
        lemma_find_id(a.0, eid, 0);
        assert(find_id(a.0, eid, 0) is None);
        assert(fin == a.0.push(EntryView { packet_id: eid, exclude: Some(ename), versions: Seq::empty() }));
        assert forall|v: i32| #[trigger] dispatch(fin, eid, v) == Some(ename) by {
            law_dispatch_captured(fin, a.0.len() as int, v);
        }
    } else {
        assert(fin == a.0);
    }
    assert forall|q: int, x: int| 0 <= q < ms.len() && 0 <= x < ms[q].1.len() implies dispatch(
        fin,
        ms[q].0,
        #[trigger] ms[q].1[x].0,
    ) == Some(name) by {
        let v = ms[q].1[x].0;
        assert(claimed_by(a.0, ms[q].0, v, name));
        let (i, j, y) = choose|i: int, j: int, y: int|
            0 <= i < a.0.len() && a.0[i].packet_id == ms[q].0 && 0 <= j < a.0[i].versions.len()
                && a.0[i].versions[j].0 == name && 0 <= y < a.0[i].versions[j].1.len()
                && (#[trigger] a.0[i].versions[j].1[y]).0 == v;
        assert(fin[i] == a.0[i]);
        law_dispatch_to_claimant(fin, i, j, y, v);
    }
}

} // verus!
