//! The risk record of a package, and how the records of the packages that
//! share a name are merged into one.

use crate::names::{add_name, add_names, distinct_names, distinct_texts, has_text, text_set};
use vstd::prelude::*;

verus! {

/// What the analysis knows of a package. "Total" counts take in everything
/// the package depends on.
#[derive(Clone, Debug)]
pub struct PackageRisk {
    /// Name of the package.
    pub name: String,
    /// The versions of it that are pulled in.
    pub versions: Vec<String>,
    /// Link to its repository.
    pub repo: Option<String>,
    pub description: Option<String>,
    /// Where its manifest lies.
    pub manifest_path: String,
    /// The total counts are established.
    pub total_calculated: bool,
    /// The package belongs to the project under analysis.
    pub internal: bool,
    /// The package is built for the host target and the chosen features.
    pub used: bool,
    /// Names of the packages it depends on directly.
    pub direct_dependencies: Vec<String>,
    /// Names of the packages it depends on, directly or not.
    pub transitive_dependencies: Vec<String>,
    /// Identities of the root packages that import it.
    pub root_importers: Vec<String>,
    /// Identities of the packages that it alone brings in.
    pub exclusive_deps_introduced: Vec<String>,
    /// Lines of code in any language.
    pub loc: u64,
    pub total_loc: u64,
    /// Lines of Rust code.
    pub rust_loc: u64,
    pub total_rust_loc: u64,
    /// Lines of unsafe code.
    pub unsafe_loc: u64,
    pub total_unsafe_loc: u64,
    pub stargazers_count: Option<u64>,
    /// People who contributed in the last six months.
    pub active_contributors: Option<u64>,
    /// Packages of the registry that depend on it.
    pub crates_io_dependent: Option<u64>,
    /// Day of its last update in the registry.
    pub crates_io_last_updated: Option<String>,
}

/// A record as a mathematical value: texts as sequences of characters, lists
/// that are read as sets as sets.
#[verifier::ext_equal]
pub ghost struct Risk {
    pub name: Seq<char>,
    pub versions: Set<Seq<char>>,
    pub repo: Option<Seq<char>>,
    pub description: Option<Seq<char>>,
    pub manifest_path: Seq<char>,
    pub total_calculated: bool,
    pub internal: bool,
    pub used: bool,
    pub direct_dependencies: Set<Seq<char>>,
    pub transitive_dependencies: Set<Seq<char>>,
    pub root_importers: Set<Seq<char>>,
    pub exclusive_deps_introduced: Set<Seq<char>>,
    pub loc: u64,
    pub total_loc: u64,
    pub rust_loc: u64,
    pub total_rust_loc: u64,
    pub unsafe_loc: u64,
    pub total_unsafe_loc: u64,
    pub stargazers_count: Option<u64>,
    pub active_contributors: Option<u64>,
    pub crates_io_dependent: Option<u64>,
    pub crates_io_last_updated: Option<Seq<char>>,
}

pub open spec fn text_of(o: Option<String>) -> Option<Seq<char>> {
    match o {
        Some(s) => Some(s@),
        None => None,
    }
}

/// The first of two values that is there.
pub open spec fn first_of<T>(a: Option<T>, b: Option<T>) -> Option<T> {
    if a is Some {
        a
    } else {
        b
    }
}

/// Both values are there, and they differ.
pub open spec fn clash<T>(a: Option<T>, b: Option<T>) -> bool {
    a is Some && b is Some && a != b
}

/// The sum of two counts, or the largest count where the sum is larger.
pub open spec fn capped_sum(a: u64, b: u64) -> u64 {
    if a + b <= u64::MAX {
        (a + b) as u64
    } else {
        u64::MAX
    }
}

impl View for PackageRisk {
    type V = Risk;

    open spec fn view(&self) -> Risk {
        Risk {
            name: self.name@,
            versions: text_set(self.versions@),
            repo: text_of(self.repo),
            description: text_of(self.description),
            manifest_path: self.manifest_path@,
            total_calculated: self.total_calculated,
            internal: self.internal,
            used: self.used,
            direct_dependencies: text_set(self.direct_dependencies@),
            transitive_dependencies: text_set(self.transitive_dependencies@),
            root_importers: text_set(self.root_importers@),
            exclusive_deps_introduced: text_set(self.exclusive_deps_introduced@),
            loc: self.loc,
            total_loc: self.total_loc,
            rust_loc: self.rust_loc,
            total_rust_loc: self.total_rust_loc,
            unsafe_loc: self.unsafe_loc,
            total_unsafe_loc: self.total_unsafe_loc,
            stargazers_count: self.stargazers_count,
            active_contributors: self.active_contributors,
            crates_io_dependent: self.crates_io_dependent,
            crates_io_last_updated: text_of(self.crates_io_last_updated),
        }
    }
}

impl Risk {
    /// The record of nothing: no name, empty sets, no counts.
    pub open spec fn blank() -> Risk {
        Risk {
            name: Seq::empty(),
            versions: Set::empty(),
            repo: None,
            description: None,
            manifest_path: Seq::empty(),
            total_calculated: false,
            internal: false,
            used: false,
            direct_dependencies: Set::empty(),
            transitive_dependencies: Set::empty(),
            root_importers: Set::empty(),
            exclusive_deps_introduced: Set::empty(),
            loc: 0,
            total_loc: 0,
            rust_loc: 0,
            total_rust_loc: 0,
            unsafe_loc: 0,
            total_unsafe_loc: 0,
            stargazers_count: None,
            active_contributors: None,
            crates_io_dependent: None,
            crates_io_last_updated: None,
        }
    }

    /// The record with its total counts at zero unless they are established.
    pub open spec fn settled(self) -> Risk {
        Risk {
            total_loc: if self.total_calculated {
                self.total_loc
            } else {
                0
            },
            total_rust_loc: if self.total_calculated {
                self.total_rust_loc
            } else {
                0
            },
            total_unsafe_loc: if self.total_calculated {
                self.total_unsafe_loc
            } else {
                0
            },
            ..self
        }
    }

    /// A text or number that both records hold differs between them, so
    /// that merging them leaves the one of `other` out.
    pub open spec fn clashes_with(self, other: Risk) -> bool {
        ||| clash(self.repo, other.repo)
        ||| clash(self.description, other.description)
        ||| (self.manifest_path.len() > 0 && other.manifest_path.len() > 0 && self.manifest_path
            != other.manifest_path)
        ||| clash(self.stargazers_count, other.stargazers_count)
        ||| clash(self.active_contributors, other.active_contributors)
        ||| clash(self.crates_io_dependent, other.crates_io_dependent)
        ||| clash(self.crates_io_last_updated, other.crates_io_last_updated)
    }

    /// The total counts of both records are established and their sums fit.
    pub open spec fn totals_join(self, other: Risk) -> bool {
        &&& self.total_calculated
        &&& other.total_calculated
        &&& self.total_loc + other.total_loc <= u64::MAX
        &&& self.total_rust_loc + other.total_rust_loc <= u64::MAX
        &&& self.total_unsafe_loc + other.total_unsafe_loc <= u64::MAX
    }

    /// This record, with what `other` knows of another version of the same
    /// package merged into it.
    ///
    /// Sets are united. Of a text or number that either may lack, the one
    /// of this record stands where there is one, else that of `other`; an
    /// empty manifest path counts as lacking. A flag is set where it is set
    /// in either. Own counts are added up and stop at the largest count. The
    /// total counts are established where they are in both and their sums
    /// fit; they are the sums then and zero otherwise.
    pub open spec fn merge(self, other: Risk) -> Risk {
        let joined = self.totals_join(other);
        Risk {
            name: self.name,
            versions: self.versions + other.versions,
            repo: first_of(self.repo, other.repo),
            description: first_of(self.description, other.description),
            manifest_path: if self.manifest_path.len() > 0 {
                self.manifest_path
            } else {
                other.manifest_path
            },
            total_calculated: joined,
            internal: self.internal || other.internal,
            used: self.used || other.used,
            direct_dependencies: self.direct_dependencies + other.direct_dependencies,
            transitive_dependencies: self.transitive_dependencies + other.transitive_dependencies,
            root_importers: self.root_importers + other.root_importers,
            exclusive_deps_introduced: self.exclusive_deps_introduced
                + other.exclusive_deps_introduced,
            loc: capped_sum(self.loc, other.loc),
            total_loc: if joined {
                (self.total_loc + other.total_loc) as u64
            } else {
                0
            },
            rust_loc: capped_sum(self.rust_loc, other.rust_loc),
            total_rust_loc: if joined {
                (self.total_rust_loc + other.total_rust_loc) as u64
            } else {
                0
            },
            unsafe_loc: capped_sum(self.unsafe_loc, other.unsafe_loc),
            total_unsafe_loc: if joined {
                (self.total_unsafe_loc + other.total_unsafe_loc) as u64
            } else {
                0
            },
            stargazers_count: first_of(self.stargazers_count, other.stargazers_count),
            active_contributors: first_of(self.active_contributors, other.active_contributors),
            crates_io_dependent: first_of(self.crates_io_dependent, other.crates_io_dependent),
            crates_io_last_updated: first_of(
                self.crates_io_last_updated,
                other.crates_io_last_updated,
            ),
        }
    }
}

/// The record for the name `name` that the first `k` of `parts` give: the
/// first of them that has the name, with each later one merged into it in
/// turn; `None` where none of them has the name.
pub open spec fn merged(parts: Seq<PackageRisk>, name: Seq<char>, k: nat) -> Option<Risk>
    decreases k,
{
    if k == 0 || k > parts.len() {
        None
    } else {
        let before = merged(parts, name, (k - 1) as nat);
        let part = parts[k - 1]@;
        if part.name != name {
            before
        } else {
            match before {
                Some(r) => Some(r.merge(part)),
                None => Some(part.settled()),
            }
        }
    }
}

/// Among the first `k` of `parts`, one of the name `name` clashes with
/// what the parts of that name before it give: a text or number of it is
/// left out of the record.
pub open spec fn clashed(parts: Seq<PackageRisk>, name: Seq<char>, k: nat) -> bool
    decreases k,
{
    if k == 0 || k > parts.len() {
        false
    } else {
        let before = merged(parts, name, (k - 1) as nat);
        let part = parts[k - 1]@;
        clashed(parts, name, (k - 1) as nat) || (part.name == name && before is Some
            && before->0.clashes_with(part))
    }
}

/// No list of a record holds a text twice, and no two records have the same name.
pub open spec fn well_kept(records: Seq<PackageRisk>) -> bool {
    &&& forall|j: int| 0 <= j < records.len() ==> (#[trigger] records[j]).wf()
    &&& forall|i: int, j: int|
        0 <= i < records.len() && 0 <= j < records.len() && i != j ==> (#[trigger] records[i]).name@
            != (#[trigger] records[j]).name@
}

/// `records` holds one record for each name that occurs among the first `k`
/// of `parts`, and that record is what the parts of that name give when merged.
pub open spec fn assembled_from(parts: Seq<PackageRisk>, k: nat, records: Seq<PackageRisk>)
    -> bool {
    &&& well_kept(records)
    &&& forall|j: int|
        0 <= j < records.len() ==> merged(parts, (#[trigger] records[j]).name@, k) == Some(
            records[j]@,
        )
    &&& forall|i: int|
        0 <= i < k && i < parts.len() ==> exists|j: int|
            0 <= j < records.len() && (#[trigger] records[j]).name@ == (#[trigger] parts[i]).name@
}

/// `records` holds one record for each name that occurs in `parts`, and
/// that record is what the parts of that name give when merged.
pub open spec fn assembled(parts: Seq<PackageRisk>, records: Seq<PackageRisk>) -> bool {
    assembled_from(parts, parts.len(), records)
}

/// Where parts give a record for a name, one of them has the name, and so
/// has the record.
pub proof fn lemma_merged_has_source(parts: Seq<PackageRisk>, name: Seq<char>, k: nat)
    requires
        merged(parts, name, k) is Some,
    ensures
        merged(parts, name, k)->0.name == name,
        exists|i: int| 0 <= i < k && i < parts.len() && (#[trigger] parts[i]).name@ == name,
    decreases k,
{
    if k > 0 && k <= parts.len() {
        if parts[k - 1]@.name != name {
            lemma_merged_has_source(parts, name, (k - 1) as nat);
            let i = choose|i: int|
                0 <= i < k - 1 && i < parts.len() && (#[trigger] parts[i]).name@ == name;
            assert(parts[i].name@ == name);
        } else {
            if merged(parts, name, (k - 1) as nat) is Some {
                lemma_merged_has_source(parts, name, (k - 1) as nat);
            }
            assert(parts[k - 1].name@ == name);
        }
    }
}

/// A copy of a text that may be lacking.
pub fn copy_text(o: &Option<String>) -> (r: Option<String>)
    ensures
        text_of(r) == text_of(*o),
{
    match o {
        Some(s) => Some(s.clone()),
        None => None,
    }
}

/// Whether both texts are there and differ.
pub fn texts_clash(a: &Option<String>, b: &Option<String>) -> (r: bool)
    ensures
        r == clash(text_of(*a), text_of(*b)),
{
    match (a, b) {
        (Some(x), Some(y)) => !(*x == *y),
        _ => false,
    }
}

/// Whether both numbers are there and differ.
pub fn numbers_clash(a: Option<u64>, b: Option<u64>) -> (r: bool)
    ensures
        r == clash(a, b),
{
    match (a, b) {
        (Some(x), Some(y)) => x != y,
        _ => false,
    }
}

/// The sum of two counts, or the largest count where the sum is larger.
pub fn add_capped(a: u64, b: u64) -> (r: u64)
    ensures
        r == capped_sum(a, b),
{
    match a.checked_add(b) {
        Some(sum) => sum,
        None => u64::MAX,
    }
}

impl Default for PackageRisk {
    /// The record of nothing.
    fn default() -> (r: PackageRisk)
        ensures
            r@ == Risk::blank(),
            r.wf(),
    {
        let r = PackageRisk {
            name: String::new(),
            versions: Vec::new(),
            repo: None,
            description: None,
            manifest_path: String::new(),
            total_calculated: false,
            internal: false,
            used: false,
            direct_dependencies: Vec::new(),
            transitive_dependencies: Vec::new(),
            root_importers: Vec::new(),
            exclusive_deps_introduced: Vec::new(),
            loc: 0,
            total_loc: 0,
            rust_loc: 0,
            total_rust_loc: 0,
            unsafe_loc: 0,
            total_unsafe_loc: 0,
            stargazers_count: None,
            active_contributors: None,
            crates_io_dependent: None,
            crates_io_last_updated: None,
        };
        assert(r@ =~= Risk::blank());
        r
    }
}

impl PackageRisk {
    /// None of the lists that are read as sets holds a text twice.
    pub open spec fn wf(&self) -> bool {
        &&& distinct_texts(self.versions@)
        &&& distinct_texts(self.direct_dependencies@)
        &&& distinct_texts(self.transitive_dependencies@)
        &&& distinct_texts(self.root_importers@)
        &&& distinct_texts(self.exclusive_deps_introduced@)
    }

    /// A copy of the record in which no list holds a text twice and the
    /// total counts are zero unless they are established.
    pub fn settled_copy(&self) -> (r: PackageRisk)
        ensures
            r@ == self@.settled(),
            r.wf(),
    {
        let ready = self.total_calculated;
        let r = PackageRisk {
            name: self.name.clone(),
            versions: distinct_names(&self.versions),
            repo: copy_text(&self.repo),
            description: copy_text(&self.description),
            manifest_path: self.manifest_path.clone(),
            total_calculated: ready,
            internal: self.internal,
            used: self.used,
            direct_dependencies: distinct_names(&self.direct_dependencies),
            transitive_dependencies: distinct_names(&self.transitive_dependencies),
            root_importers: distinct_names(&self.root_importers),
            exclusive_deps_introduced: distinct_names(&self.exclusive_deps_introduced),
            loc: self.loc,
            total_loc: if ready {
                self.total_loc
            } else {
                0
            },
            rust_loc: self.rust_loc,
            total_rust_loc: if ready {
                self.total_rust_loc
            } else {
                0
            },
            unsafe_loc: self.unsafe_loc,
            total_unsafe_loc: if ready {
                self.total_unsafe_loc
            } else {
                0
            },
            stargazers_count: self.stargazers_count,
            active_contributors: self.active_contributors,
            crates_io_dependent: self.crates_io_dependent,
            crates_io_last_updated: copy_text(&self.crates_io_last_updated),
        };
        assert(r@ =~= self@.settled());
        r
    }

    /// Whether a text or number of `part` would be left out on merging it
    /// into this record, because the record holds another.
    pub fn clashes_with(&self, part: &PackageRisk) -> (r: bool)
        ensures
            r == self@.clashes_with(part@),
    {
        texts_clash(&self.repo, &part.repo) || texts_clash(&self.description, &part.description)
            || (!self.manifest_path.as_str().is_empty() && !part.manifest_path.as_str().is_empty()
            && !(self.manifest_path == part.manifest_path)) || numbers_clash(
            self.stargazers_count,
            part.stargazers_count,
        ) || numbers_clash(self.active_contributors, part.active_contributors) || numbers_clash(
            self.crates_io_dependent,
            part.crates_io_dependent,
        ) || texts_clash(&self.crates_io_last_updated, &part.crates_io_last_updated)
    }

    /// Merges into this record what `part` knows of another version of the
    /// same package.
    pub fn absorb(&mut self, part: &PackageRisk)
        requires
            old(self).wf(),
        ensures
            final(self)@ == old(self)@.merge(part@),
            final(self).wf(),
    {
        add_names(&mut self.versions, &part.versions);
        add_names(&mut self.direct_dependencies, &part.direct_dependencies);
        add_names(&mut self.transitive_dependencies, &part.transitive_dependencies);
        add_names(&mut self.root_importers, &part.root_importers);
        add_names(&mut self.exclusive_deps_introduced, &part.exclusive_deps_introduced);
        if self.repo.is_none() {
            self.repo = copy_text(&part.repo);
        }
        if self.description.is_none() {
            self.description = copy_text(&part.description);
        }
        if self.manifest_path.as_str().is_empty() {
            self.manifest_path = part.manifest_path.clone();
        }
        if self.crates_io_last_updated.is_none() {
            self.crates_io_last_updated = copy_text(&part.crates_io_last_updated);
        }
        if self.stargazers_count.is_none() {
            self.stargazers_count = part.stargazers_count;
        }
        if self.active_contributors.is_none() {
            self.active_contributors = part.active_contributors;
        }
        if self.crates_io_dependent.is_none() {
            self.crates_io_dependent = part.crates_io_dependent;
        }
        self.internal = self.internal || part.internal;
        self.used = self.used || part.used;
        self.loc = add_capped(self.loc, part.loc);
        self.rust_loc = add_capped(self.rust_loc, part.rust_loc);
        self.unsafe_loc = add_capped(self.unsafe_loc, part.unsafe_loc);
        let sums = if self.total_calculated && part.total_calculated {
            match (
                self.total_loc.checked_add(part.total_loc),
                self.total_rust_loc.checked_add(part.total_rust_loc),
                self.total_unsafe_loc.checked_add(part.total_unsafe_loc),
            ) {
                (Some(a), Some(b), Some(c)) => Some((a, b, c)),
                _ => None,
            }
        } else {
            None
        };
        match sums {
            Some((a, b, c)) => {
                self.total_loc = a;
                self.total_rust_loc = b;
                self.total_unsafe_loc = c;
                self.total_calculated = true;
            },
            None => {
                self.total_loc = 0;
                self.total_rust_loc = 0;
                self.total_unsafe_loc = 0;
                self.total_calculated = false;
            },
        }
        assert(self@ =~= old(self)@.merge(part@));
    }
}

/// The position in `records` of the record with the name `name`.
pub fn find_record(records: &Vec<PackageRisk>, name: &String) -> (r: Option<usize>)
    ensures
        match r {
            Some(j) => j < records.len() && records[j as int].name@ == name@,
            None => forall|j: int| 0 <= j < records.len()
                ==> (#[trigger] records[j]).name@ != name@,
        },
{
    let mut j: usize = 0;
    while j < records.len()
        invariant
            j <= records.len(),
            forall|i: int| 0 <= i < j ==> (#[trigger] records[i]).name@ != name@,
        decreases records.len() - j,
    {
        if records[j].name == *name {
            return Some(j);
        }
        j += 1;
    }
    None
}

/// Takes `part` into `records`: merged into the record of its name where
/// there is one, as a new record at the end otherwise. Says whether it was
/// merged into a record with which it clashes.
pub fn create_or_update_dependency(records: &mut Vec<PackageRisk>, part: &PackageRisk) -> (noted:
    bool)
    requires
        well_kept(old(records)@),
    ensures
        well_kept(final(records)@),
        old(records).len() <= final(records).len() <= old(records).len() + 1,
        forall|j: int|
            0 <= j < old(records).len() && (#[trigger] old(records)[j]).name@ != part.name@
                ==> final(records)[j] == old(records)[j],
        forall|j: int|
            0 <= j < old(records).len() && (#[trigger] old(records)[j]).name@ == part.name@
                ==> final(records).len() == old(records).len() && final(records)[j]@ == old(
                records,
            )[j]@.merge(part@) && noted == old(records)[j]@.clashes_with(part@),
        (forall|j: int| 0 <= j < old(records).len()
            ==> (#[trigger] old(records)[j]).name@ != part.name@)
            ==> !noted && final(records).len() == old(records).len() + 1 && final(records)[old(
            records,
        ).len() as int]@ == part@.settled(),
{
    match find_record(records, &part.name) {
        Some(j) => {
            let noted = records[j].clashes_with(part);
            records[j].absorb(part);
            noted
        },
        None => {
            records.push(part.settled_copy());
            false
        },
    }
}

/// One record for each name that occurs in `parts`: the parts of that
/// name, merged in their order. Beside the records, the names for which a
/// part clashed with the parts before it.
pub fn assemble(parts: &Vec<PackageRisk>) -> (r: (Vec<PackageRisk>, Vec<String>))
    ensures
        assembled(parts@, r.0@),
        distinct_texts(r.1@),
        forall|t: Seq<char>| has_text(r.1@, t) <==> clashed(parts@, t, parts.len() as nat),
{
    let mut records: Vec<PackageRisk> = Vec::new();
    let mut conflicts: Vec<String> = Vec::new();
    let mut k: usize = 0;
    while k < parts.len()
        invariant
            k <= parts.len(),
            assembled_from(parts@, k as nat, records@),
            distinct_texts(conflicts@),
            forall|t: Seq<char>| has_text(conflicts@, t) <==> clashed(parts@, t, k as nat),
        decreases parts.len() - k,
    {
        let ghost before = records@;
        let ghost noted_before = conflicts@;
        let noted = create_or_update_dependency(&mut records, &parts[k]);
        if noted {
            add_name(&mut conflicts, &parts[k].name);
        }
        proof {
            let part = parts@[k as int];
            if merged(parts@, part.name@, k as nat) is Some {
                lemma_merged_has_source(parts@, part.name@, k as nat);
                let i = choose|i: int|
                    0 <= i < k && i < parts@.len() && (#[trigger] parts@[i]).name@ == part.name@;
                let x = choose|x: int|
                    0 <= x < before.len() && (#[trigger] before[x]).name@ == (
                    #[trigger] parts@[i]).name@;
                assert(before[x].name@ == part.name@);
                assert(merged(parts@, before[x].name@, k as nat) == Some(before[x]@));
                assert(noted == before[x]@.clashes_with(part@));
            } else {
                assert forall|j: int| 0 <= j < before.len() implies (#[trigger] before[j]).name@
                    != part.name@ by {
                    if before[j].name@ == part.name@ {
                        assert(merged(parts@, before[j].name@, k as nat) == Some(before[j]@));
                    }
                }
                assert(!noted);
            }
            assert forall|t: Seq<char>| has_text(conflicts@, t) <==> clashed(
                parts@,
                t,
                (k + 1) as nat,
            ) by {
                assert(has_text(noted_before, t) <==> clashed(parts@, t, k as nat));
            }
            assert forall|j: int| 0 <= j < records.len() implies merged(
                parts@,
                (#[trigger] records[j]).name@,
                (k + 1) as nat,
            ) == Some(records[j]@) by {
                if j < before.len() {
                    if before[j].name@ != part.name@ {
                        assert(records[j] == before[j]);
                    }
                }
            }
            assert forall|i: int| 0 <= i < k + 1 && i < parts@.len() implies exists|j: int|
                0 <= j < records.len() && (#[trigger] records[j]).name@
                    == (#[trigger] parts@[i]).name@ by {
                if i < k {
                    let x = choose|x: int|
                        0 <= x < before.len() && (#[trigger] before[x]).name@ == (
                        #[trigger] parts@[i]).name@;
                    assert(records[x].name@ == before[x].name@);
                } else {
                    if exists|x: int| 0 <= x < before.len() && (#[trigger] before[x]).name@
                        == part.name@ {
                        let x = choose|x: int|
                            0 <= x < before.len() && (#[trigger] before[x]).name@ == part.name@;
                        assert(records[x].name@ == part.name@);
                    } else {
                        assert(records[before.len() as int].name@ == part.name@);
                    }
                }
            }
        }
        k += 1;
    }
    (records, conflicts)
}

} // verus!
