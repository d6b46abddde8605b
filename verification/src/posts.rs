//! Content items: posts and categories.
//!
//! Every item carries a bare name, optional aliases, declared parent
//! names and a directory namespace. An item is addressable under each of
//! its names, qualified by the directory (`"<dirname>/<name>"` when the
//! namespace is non-empty, else the bare name). Cross-reference listings
//! computed from the graph are written back onto the item for rendering.

use crate::errors::IOError;
use vstd::prelude::*;
use vstd::string::StringExecFns;

verus! {

/// A rendered link target: a navigable path and a display title.
#[derive(Debug, Clone)]
pub struct TeraNextPost {
    pub path: String,
    pub title: String,
}

/// A category: an inner node of the hierarchy that groups other items.
#[derive(Debug, Clone)]
pub struct Category {
    pub name: String,
    pub title: String,
    pub parents: Vec<String>,
    pub aliases: Vec<String>,
    /// Directory namespace; empty when the item is unqualified.
    pub dirname: String,
    pub body: String,
    pub children: Vec<TeraNextPost>,
    pub parent_names: Vec<TeraNextPost>,
}

/// A post: a leaf content item.
#[derive(Debug, Clone)]
pub struct Post {
    pub name: String,
    pub title: String,
    pub parents: Vec<String>,
    pub aliases: Vec<String>,
    /// Directory namespace; empty when the item is unqualified.
    pub dirname: String,
    pub image: String,
    pub year: String,
    pub dl_url: String,
    pub body: String,
    pub children: Vec<TeraNextPost>,
    pub parent_names: Vec<TeraNextPost>,
}

/// Either kind of content item.
#[derive(Debug, Clone)]
pub enum PostTypes {
    Post(Post),
    Category(Category),
}

/// The value of a `Post` with its vectors abstracted to sequences, so
/// that a faithful copy compares equal even though Rust vectors are
/// opaque values to the verifier.
pub struct PostValue {
    pub name: String,
    pub title: String,
    pub parents: Seq<String>,
    pub aliases: Seq<String>,
    pub dirname: String,
    pub image: String,
    pub year: String,
    pub dl_url: String,
    pub body: String,
    pub children: Seq<TeraNextPost>,
    pub parent_names: Seq<TeraNextPost>,
}

/// The value of a `Category`, vectors abstracted to sequences.
pub struct CategoryValue {
    pub name: String,
    pub title: String,
    pub parents: Seq<String>,
    pub aliases: Seq<String>,
    pub dirname: String,
    pub body: String,
    pub children: Seq<TeraNextPost>,
    pub parent_names: Seq<TeraNextPost>,
}

/// The value of a content item, vectors abstracted to sequences.
pub enum PostTypesValue {
    Post(PostValue),
    Category(CategoryValue),
}

impl Post {
    /// The post's value with vectors abstracted to sequences.
    pub open spec fn dv(self) -> PostValue {
        PostValue {
            name: self.name,
            title: self.title,
            parents: self.parents@,
            aliases: self.aliases@,
            dirname: self.dirname,
            image: self.image,
            year: self.year,
            dl_url: self.dl_url,
            body: self.body,
            children: self.children@,
            parent_names: self.parent_names@,
        }
    }
}

impl Category {
    /// The category's value with vectors abstracted to sequences.
    pub open spec fn dv(self) -> CategoryValue {
        CategoryValue {
            name: self.name,
            title: self.title,
            parents: self.parents@,
            aliases: self.aliases@,
            dirname: self.dirname,
            body: self.body,
            children: self.children@,
            parent_names: self.parent_names@,
        }
    }
}

/// The directory-qualified form of a name: `dir` and `name` joined by a
/// slash when `dir` is non-empty, else `name` alone.
pub open spec fn spec_withdir(dir: Seq<char>, name: Seq<char>) -> Seq<char> {
    if dir.len() == 0 {
        name
    } else {
        dir + seq!['/'] + name
    }
}

impl PostTypesValue {
    /// The item's bare name, before directory qualification.
    pub open spec fn basename(self) -> Seq<char> {
        match self {
            PostTypesValue::Post(p) => p.name@,
            PostTypesValue::Category(c) => c.name@,
        }
    }

    /// The item's directory namespace.
    pub open spec fn dir(self) -> Seq<char> {
        match self {
            PostTypesValue::Post(p) => p.dirname@,
            PostTypesValue::Category(c) => c.dirname@,
        }
    }

    /// The item's primary, directory-qualified name.
    pub open spec fn qname(self) -> Seq<char> {
        spec_withdir(self.dir(), self.basename())
    }

    /// The item's display title.
    pub open spec fn title(self) -> Seq<char> {
        match self {
            PostTypesValue::Post(p) => p.title@,
            PostTypesValue::Category(c) => c.title@,
        }
    }

    /// The item's alias strings, unqualified.
    pub open spec fn aliases(self) -> Seq<String> {
        match self {
            PostTypesValue::Post(p) => p.aliases,
            PostTypesValue::Category(c) => c.aliases,
        }
    }

    /// The item's declared parent names, raw.
    pub open spec fn parents(self) -> Seq<String> {
        match self {
            PostTypesValue::Post(p) => p.parents,
            PostTypesValue::Category(c) => c.parents,
        }
    }

    /// Every directory-qualified name the item is addressable under.
    pub open spec fn qnames(self) -> Seq<Seq<char>> {
        self.aliases().map_values(|a: String| spec_withdir(self.dir(), a@)).push(self.qname())
    }
}

impl PostTypes {
    /// The item's value with vectors abstracted to sequences.
    pub open spec fn dv(self) -> PostTypesValue {
        match self {
            PostTypes::Post(p) => PostTypesValue::Post(p.dv()),
            PostTypes::Category(c) => PostTypesValue::Category(c.dv()),
        }
    }

    /// The item's bare name, before directory qualification.
    pub open spec fn spec_basename(self) -> Seq<char> {
        self.dv().basename()
    }

    /// The item's directory namespace.
    pub open spec fn spec_dir(self) -> Seq<char> {
        self.dv().dir()
    }

    /// The item's primary, directory-qualified name.
    pub open spec fn spec_name(self) -> Seq<char> {
        self.dv().qname()
    }

    /// The item's display title.
    pub open spec fn spec_title(self) -> Seq<char> {
        self.dv().title()
    }

    /// The item's alias strings, unqualified.
    pub open spec fn spec_aliases(self) -> Seq<String> {
        self.dv().aliases()
    }

    /// The item's declared parent names, raw.
    pub open spec fn spec_parents(self) -> Seq<String> {
        self.dv().parents()
    }

    /// Every name the item is addressable under, directory-qualified:
    /// the aliases first, the primary name last.
    pub open spec fn spec_names(self) -> Seq<Seq<char>> {
        self.dv().qnames()
    }

    /// The item's computed child links.
    pub open spec fn spec_children(self) -> Seq<TeraNextPost> {
        match self {
            PostTypes::Post(p) => p.children@,
            PostTypes::Category(c) => c.children@,
        }
    }

    /// The item's computed parent links.
    pub open spec fn spec_parent_links(self) -> Seq<TeraNextPost> {
        match self {
            PostTypes::Post(p) => p.parent_names@,
            PostTypes::Category(c) => c.parent_names@,
        }
    }

    /// True when the two items agree on everything except the computed
    /// `children` link list.
    pub open spec fn same_but_children(self, other: PostTypes) -> bool {
        match (self, other) {
            (PostTypes::Post(a), PostTypes::Post(b)) => a == Post { children: a.children, ..b },
            (PostTypes::Category(a), PostTypes::Category(b)) => a == (Category {
                children: a.children,
                ..b
            }),
            _ => false,
        }
    }

    /// True when the two items agree on everything except the computed
    /// `parent_names` link list.
    pub open spec fn same_but_parent_links(self, other: PostTypes) -> bool {
        match (self, other) {
            (PostTypes::Post(a), PostTypes::Post(b)) => a == Post {
                parent_names: a.parent_names,
                ..b
            },
            (PostTypes::Category(a), PostTypes::Category(b)) => a == (Category {
                parent_names: a.parent_names,
                ..b
            }),
            _ => false,
        }
    }

    fn get_dir(&self) -> (r: &str)
        ensures
            r@ == self.spec_dir(),
    {
        match self {
            PostTypes::Post(p) => p.dirname.as_str(),
            PostTypes::Category(c) => c.dirname.as_str(),
        }
    }

    fn withdir(&self, name: &str) -> (r: String)
        ensures
            r@ == spec_withdir(self.spec_dir(), name@),
    {
        proof {
            reveal_strlit("/");
            assert("/"@ =~= seq!['/']);
        }
        let dir = self.get_dir();
        if dir.is_empty() {
            name.to_owned()
        } else {
            let mut out = dir.to_owned();
            out.append("/");
            out.append(name);
            out
        }
    }

    /// The primary, directory-qualified name.
    pub fn name(&self) -> (r: String)
        ensures
            r@ == self.spec_name(),
    {
        match self {
            PostTypes::Post(p) => self.withdir(p.name.as_str()),
            PostTypes::Category(c) => self.withdir(c.name.as_str()),
        }
    }

    /// The bare name, without directory qualification.
    pub fn basename(&self) -> (r: String)
        ensures
            r@ == self.spec_basename(),
    {
        match self {
            PostTypes::Post(p) => p.name.clone(),
            PostTypes::Category(c) => c.name.clone(),
        }
    }

    /// The display title.
    pub fn title(&self) -> (r: String)
        ensures
            r@ == self.spec_title(),
    {
        match self {
            PostTypes::Post(p) => p.title.clone(),
            PostTypes::Category(c) => c.title.clone(),
        }
    }

    fn get_aliases(&self) -> (r: &Vec<String>)
        ensures
            r@ == self.spec_aliases(),
    {
        match self {
            PostTypes::Post(p) => &p.aliases,
            PostTypes::Category(c) => &c.aliases,
        }
    }

    /// Every directory-qualified name the item answers to: each alias,
    /// then the primary name.
    pub fn names(&self) -> (r: Vec<String>)
        ensures
            r@.map_values(|s: String| s@) == self.spec_names(),
    {
        let aliases = self.get_aliases();
        let mut out: Vec<String> = Vec::new();
        let n = aliases.len();
        for i in 0..n
            invariant
                n == aliases@.len(),
                aliases@ == self.spec_aliases(),
                out@.len() == i,
                forall|j: int|
                    0 <= j < i ==> out@[j]@ == spec_withdir(self.spec_dir(), aliases@[j]@),
        {
            out.push(self.withdir(aliases[i].as_str()));
        }
        out.push(self.name());
        proof {
            assert(out@.map_values(|s: String| s@) =~= self.spec_names());
        }
        out
    }

    /// The raw declared parent names (possibly including the `"INDEX"`
    /// sentinel).
    pub fn parents(&self) -> (r: &Vec<String>)
        ensures
            r@ == self.spec_parents(),
    {
        match self {
            PostTypes::Post(p) => &p.parents,
            PostTypes::Category(c) => &c.parents,
        }
    }

    /// Appends the given (path, title) pairs to the item's computed child
    /// links.
    pub fn set_children_names(&mut self, children: Vec<(String, String)>)
        ensures
            final(self).spec_children() == old(self).spec_children() + children@.map_values(
                |c: (String, String)| TeraNextPost { path: c.0, title: c.1 },
            ),
            final(self).same_but_children(*old(self)),
    {
        let links = make_links(children);
        match self {
            PostTypes::Post(p) => {
                let mut cur = links;
                p.children.append(&mut cur);
            },
            PostTypes::Category(c) => {
                let mut cur = links;
                c.children.append(&mut cur);
            },
        }
    }

    /// Appends the given (path, title) pairs to the item's computed
    /// parent links.
    pub fn set_parent_names(&mut self, parents: Vec<(String, String)>)
        ensures
            final(self).spec_parent_links() == old(self).spec_parent_links() + parents@.map_values(
                |c: (String, String)| TeraNextPost { path: c.0, title: c.1 },
            ),
            final(self).same_but_parent_links(*old(self)),
    {
        let links = make_links(parents);
        match self {
            PostTypes::Post(p) => {
                let mut cur = links;
                p.parent_names.append(&mut cur);
            },
            PostTypes::Category(c) => {
                let mut cur = links;
                c.parent_names.append(&mut cur);
            },
        }
    }
}

impl TeraNextPost {
    /// An equal copy.
    pub fn duplicate(&self) -> (r: TeraNextPost)
        ensures
            r == *self,
    {
        TeraNextPost { path: self.path.clone(), title: self.title.clone() }
    }
}

/// An elementwise-equal copy of a vector of strings.
fn clone_string_vec(v: &Vec<String>) -> (r: Vec<String>)
    ensures
        r@ == v@,
{
    let mut out: Vec<String> = Vec::new();
    let n = v.len();
    for i in 0..n
        invariant
            n == v@.len(),
            out@.len() == i,
            forall|j: int| 0 <= j < i ==> out@[j] == v@[j],
    {
        out.push(v[i].clone());
    }
    proof {
        assert(out@ =~= v@);
    }
    out
}

/// An elementwise-equal copy of a vector of link records.
fn clone_links(v: &Vec<TeraNextPost>) -> (r: Vec<TeraNextPost>)
    ensures
        r@ == v@,
{
    let mut out: Vec<TeraNextPost> = Vec::new();
    let n = v.len();
    for i in 0..n
        invariant
            n == v@.len(),
            out@.len() == i,
            forall|j: int| 0 <= j < i ==> out@[j] == v@[j],
    {
        out.push(v[i].duplicate());
    }
    proof {
        assert(out@ =~= v@);
    }
    out
}

impl Post {
    /// An equal copy, up to vector identity.
    pub fn duplicate(&self) -> (r: Post)
        ensures
            r.dv() == self.dv(),
    {
        Post {
            name: self.name.clone(),
            title: self.title.clone(),
            parents: clone_string_vec(&self.parents),
            aliases: clone_string_vec(&self.aliases),
            dirname: self.dirname.clone(),
            image: self.image.clone(),
            year: self.year.clone(),
            dl_url: self.dl_url.clone(),
            body: self.body.clone(),
            children: clone_links(&self.children),
            parent_names: clone_links(&self.parent_names),
        }
    }
}

impl Category {
    /// An equal copy, up to vector identity.
    pub fn duplicate(&self) -> (r: Category)
        ensures
            r.dv() == self.dv(),
    {
        Category {
            name: self.name.clone(),
            title: self.title.clone(),
            parents: clone_string_vec(&self.parents),
            aliases: clone_string_vec(&self.aliases),
            dirname: self.dirname.clone(),
            body: self.body.clone(),
            children: clone_links(&self.children),
            parent_names: clone_links(&self.parent_names),
        }
    }
}

impl PostTypes {
    /// An equal copy, up to vector identity.
    pub fn duplicate(&self) -> (r: PostTypes)
        ensures
            r.dv() == self.dv(),
    {
        match self {
            PostTypes::Post(p) => PostTypes::Post(p.duplicate()),
            PostTypes::Category(c) => PostTypes::Category(c.duplicate()),
        }
    }
}

/// Whether two items are addressable under a common qualified name.
pub open spec fn shares_name(a: PostTypes, b: PostTypes) -> bool {
    exists|n: Seq<char>|
        #![trigger a.spec_names().contains(n), b.spec_names().contains(n)]
        a.spec_names().contains(n) && b.spec_names().contains(n)
}

/// Whether no two items share a qualified name.
pub open spec fn no_collisions(items: Seq<(String, PostTypes)>) -> bool {
    forall|i: int, j: int|
        0 <= i < j < items.len() ==> !(#[trigger] shares_name(items[i].1, items[j].1))
}

/// Whether `e` is the collision report for `name` between the two
/// sources.
pub open spec fn is_dup_error_for(e: IOError, name: Seq<char>, s1: String, s2: String) -> bool {
    e matches IOError::DuplicateName(nm, a, b) && nm@ == name && a == s1 && b == s2
}

/// The position of the first occurrence of `n`, assuming it occurs.
pub open spec fn first_idx(names: Seq<Seq<char>>, n: Seq<char>) -> int
    decreases names.len(),
{
    if names.len() == 0 {
        0
    } else if names[0] == n {
        0
    } else {
        1 + first_idx(names.drop_first(), n)
    }
}

/// When `n` occurs, `first_idx` is its first occurrence.
pub proof fn lemma_first_idx(names: Seq<Seq<char>>, n: Seq<char>)
    requires
        names.contains(n),
    ensures
        0 <= first_idx(names, n) < names.len(),
        names[first_idx(names, n)] == n,
        forall|t: int| 0 <= t < first_idx(names, n) ==> names[t] != n,
    decreases names.len(),
{
    if names.len() > 0 && names[0] != n {
        assert(names.drop_first().contains(n)) by {
            let t = choose|t: int| 0 <= t < names.len() && names[t] == n;
            assert(names.drop_first()[t - 1] == n);
        }
        lemma_first_idx(names.drop_first(), n);
        let f = first_idx(names, n);
        assert(names[f] == names.drop_first()[f - 1]);
        assert forall|t: int| 0 <= t < f implies names[t] != n by {
            if t > 0 {
                assert(names.drop_first()[t - 1] != n);
            }
        }
    }
}

/// Whether the list holds a string with this text.
fn contains_name(v: &Vec<String>, s: &String) -> (r: bool)
    ensures
        r == (exists|j: int| 0 <= j < v@.len() && (#[trigger] v@[j])@ == s@),
{
    let n = v.len();
    let mut k: usize = 0;
    while k < n
        invariant
            k <= n,
            n == v@.len(),
            forall|j: int| 0 <= j < k ==> (#[trigger] v@[j])@ != s@,
        decreases n - k,
    {
        if v[k] == *s {
            return true;
        }
        k = k + 1;
    }
    false
}

/// Whether the list holds a string with this text before position
/// `upto`.
fn contains_name_upto(v: &Vec<String>, upto: usize, s: &String) -> (r: bool)
    requires
        upto <= v@.len(),
    ensures
        r == (exists|j: int| 0 <= j < upto && (#[trigger] v@[j])@ == s@),
{
    let mut k: usize = 0;
    while k < upto
        invariant
            k <= upto,
            upto <= v@.len(),
            forall|j: int| 0 <= j < k ==> (#[trigger] v@[j])@ != s@,
        decreases upto - k,
    {
        if v[k] == *s {
            return true;
        }
        k = k + 1;
    }
    false
}

/// Whether the error list holds the collision report for `n` between
/// items `i` and `j`.
pub open spec fn dup_recorded(
    es: Seq<IOError>,
    posts: Seq<(String, PostTypes)>,
    i: int,
    j: int,
    n: Seq<char>,
) -> bool {
    exists|k: int| 0 <= k < es.len() && #[trigger] is_dup_error_for(es[k], n, posts[i].0, posts[j].0)
}

/// A recorded collision stays recorded when more errors are appended.
pub proof fn lemma_dup_recorded_grow(
    es: Seq<IOError>,
    es2: Seq<IOError>,
    posts: Seq<(String, PostTypes)>,
    i: int,
    j: int,
    n: Seq<char>,
)
    requires
        dup_recorded(es, posts, i, j, n),
        es2.len() >= es.len(),
        es == es2.take(es.len() as int),
    ensures
        dup_recorded(es2, posts, i, j, n),
{
    let k0 = choose|k0: int|
        0 <= k0 < es.len() && #[trigger] is_dup_error_for(es[k0], n, posts[i].0, posts[j].0);
    assert(es2.take(es.len() as int)[k0] == es2[k0]);
    assert(is_dup_error_for(es2[k0], n, posts[i].0, posts[j].0));
}

/// Whether `e` reports a genuine collision of the content set: some
/// name shared by two items, named with both their sources.
pub open spec fn dup_error_witnessed(e: IOError, posts: Seq<(String, PostTypes)>) -> bool {
    exists|i: int, j: int, n: Seq<char>|
        #![trigger is_dup_error_for(e, n, posts[i].0, posts[j].0)]
        0 <= i < j < posts.len() && posts[i].1.spec_names().contains(n)
            && posts[j].1.spec_names().contains(n) && is_dup_error_for(
            e,
            n,
            posts[i].0,
            posts[j].0,
        )
}

/// Whether the name rows mirror the items' qualified names.
pub open spec fn names_match(
    allnames: Seq<Vec<String>>,
    posts: Seq<(String, PostTypes)>,
) -> bool {
    &&& allnames.len() == posts.len()
    &&& forall|t: int|
        0 <= t < posts.len() ==> (#[trigger] allnames[t])@.len() == posts[t].1.spec_names().len()
    &&& forall|t: int, q: int|
        #![trigger allnames[t]@[q]]
        0 <= t < posts.len() && 0 <= q < allnames[t]@.len() ==> allnames[t]@[q]@ == posts[t]
            .1.spec_names()[q]
}

/// Records every name collision between items `a` and `b`: one error
/// per shared name, appended to the list.
#[verifier::rlimit(60)]
fn record_pair_collisions(
    errors: &mut Vec<IOError>,
    allnames: &Vec<Vec<String>>,
    posts: &Vec<(String, PostTypes)>,
    a: usize,
    b: usize,
)
    requires
        a < b < posts@.len(),
        names_match(allnames@, posts@),
    ensures
        final(errors)@.len() >= old(errors)@.len(),
        old(errors)@ == final(errors)@.take(old(errors)@.len() as int),
        forall|k: int|
            old(errors)@.len() <= k < final(errors)@.len() ==> dup_error_witnessed(
                #[trigger] final(errors)@[k],
                posts@,
            ),
        forall|n: Seq<char>|
            #![trigger posts@[b as int].1.spec_names().contains(n)]
            posts@[a as int].1.spec_names().contains(n) && posts@[b as int]
                .1.spec_names().contains(n) ==> dup_recorded(
                final(errors)@,
                posts@,
                a as int,
                b as int,
                n,
            ),
{
    let row_len = allnames[a].len();
    let mut k: usize = 0;
    let ghost entry_len = errors@.len();
    while k < row_len
        invariant
            k <= row_len,
            a < b < posts@.len(),
            names_match(allnames@, posts@),
            row_len == allnames@[a as int]@.len(),
            entry_len == old(errors)@.len(),
            errors@.len() >= entry_len,
            old(errors)@ == errors@.take(entry_len as int),
            forall|k2: int|
                entry_len <= k2 < errors@.len() ==> dup_error_witnessed(
                    #[trigger] errors@[k2],
                    posts@,
                ),
            forall|n2: Seq<char>|
                #![trigger posts@[b as int].1.spec_names().contains(n2)]
                posts@[a as int].1.spec_names().contains(n2) && posts@[b as int]
                    .1.spec_names().contains(n2) && 0 <= first_idx(
                    posts@[a as int].1.spec_names(),
                    n2,
                ) < k ==> dup_recorded(errors@, posts@, a as int, b as int, n2),
        decreases row_len - k,
    {
        let ghost pre_errors = errors@;
        let hit;
        let earlier;
        {
            let row_a = &allnames[a];
            let nmref = &row_a[k];
            let row_b = &allnames[b];
            hit = contains_name(row_b, nmref);
            earlier = contains_name_upto(row_a, k, nmref);
        }
        if hit && !earlier {
            let nm = allnames[a][k].clone();
            let s1 = posts[a].0.clone();
            let s2 = posts[b].0.clone();
            errors.push(IOError::DuplicateName(nm, s1, s2));
        }
        k = k + 1;
        proof {
            let av = posts@[a as int].1.spec_names();
            let bv = posts@[b as int].1.spec_names();
            let nval = av[k - 1];
            assert(allnames@[a as int]@[k - 1]@ == nval);
            if hit && !earlier {
                let e = errors@[errors@.len() - 1];
                assert(av.contains(nval));
                let q = choose|q: int|
                    0 <= q < allnames@[b as int]@.len() && (#[trigger] allnames@[b as int]@[q])@
                        == nval;
                assert(bv[q] == nval);
                assert(bv.contains(nval));
                assert(is_dup_error_for(e, nval, posts@[a as int].0, posts@[b as int].0));
                assert(dup_error_witnessed(e, posts@));
                assert(old(errors)@ =~= errors@.take(entry_len as int));
            }
            assert(pre_errors =~= errors@.take(pre_errors.len() as int));
            assert forall|k2: int|
                entry_len <= k2 < errors@.len() implies dup_error_witnessed(
                #[trigger] errors@[k2],
                posts@,
            ) by {
                if k2 < pre_errors.len() {
                    assert(errors@[k2] == pre_errors[k2]);
                }
            }
            assert forall|n2: Seq<char>|
                posts@[a as int].1.spec_names().contains(n2) && #[trigger] posts@[b as int]
                    .1.spec_names().contains(n2) && 0 <= first_idx(av, n2) < k implies
                dup_recorded(errors@, posts@, a as int, b as int, n2) by {
                lemma_first_idx(av, n2);
                let f = first_idx(av, n2);
                if f < k - 1 {
                    lemma_dup_recorded_grow(
                        pre_errors,
                        errors@,
                        posts@,
                        a as int,
                        b as int,
                        n2,
                    );
                } else {
                    assert(f == k - 1);
                    assert(av[f] == n2);
                    assert(nval == n2);
                    assert(hit) by {
                        let q2 = choose|q2: int| 0 <= q2 < bv.len() && #[trigger] bv[q2] == n2;
                        assert(allnames@[b as int]@[q2]@ == n2);
                    }
                    assert(!earlier) by {
                        if earlier {
                            let q3 = choose|q3: int|
                                0 <= q3 < k - 1 && (#[trigger] allnames@[a as int]@[q3])@
                                    == nval;
                            assert(av[q3] == n2);
                            assert(false);
                        }
                    }
                    let e = errors@[errors@.len() - 1];
                    assert(is_dup_error_for(e, n2, posts@[a as int].0, posts@[b as int].0));
                }
            }
        }
    }
    proof {
        let av = posts@[a as int].1.spec_names();
        assert forall|n2: Seq<char>|
            av.contains(n2) && #[trigger] posts@[b as int].1.spec_names().contains(n2) implies
            dup_recorded(errors@, posts@, a as int, b as int, n2) by {
            lemma_first_idx(av, n2);
        }
    }
}

/// The duplicate-name gate: checks every unordered pair of parsed items
/// for a shared qualified name before any graph is built.
///
/// Each entry pairs a source location with its item. All collisions are
/// reported together, one error per colliding name carrying both
/// sources; nothing is reported twice for one pair. Only a
/// collision-free set passes, as the items in input order.
#[verifier::rlimit(60)]
pub fn get_posts(posts: Vec<(String, PostTypes)>) -> (r: Result<Vec<PostTypes>, Vec<IOError>>)
    ensures
        (r is Ok) == no_collisions(posts@),
        (r matches Ok(items) ==> items@ == posts@.map_values(|p: (String, PostTypes)| p.1)),
        (r matches Err(es) ==> {
            &&& es@.len() > 0
            &&& forall|k: int|
                0 <= k < es@.len() ==> dup_error_witnessed(#[trigger] es@[k], posts@)
            &&& forall|i: int, j: int, n: Seq<char>|
                #![trigger posts@[i].1.spec_names().contains(n), posts@[j].1.spec_names().contains(n)]
                0 <= i < j < posts@.len() && posts@[i].1.spec_names().contains(n)
                    && posts@[j].1.spec_names().contains(n) ==> dup_recorded(
                    es@,
                    posts@,
                    i,
                    j,
                    n,
                )
        }),
{
    let nn = posts.len();
    let mut allnames: Vec<Vec<String>> = Vec::new();
    let mut i: usize = 0;
    while i < nn
        invariant
            i <= nn,
            nn == posts@.len(),
            allnames@.len() == i,
            forall|t: int|
                0 <= t < i ==> (#[trigger] allnames@[t])@.len() == posts@[t].1.spec_names().len(),
            forall|t: int, q: int|
                #![trigger allnames@[t]@[q]]
                0 <= t < i && 0 <= q < allnames@[t]@.len() ==> allnames@[t]@[q]@ == posts@[t]
                    .1.spec_names()[q],
        decreases nn - i,
    {
        let nm = posts[i].1.names();
        proof {
            assert forall|q: int| 0 <= q < nm@.len() implies (#[trigger] nm@[q])@ == posts@[
                i as int
            ].1.spec_names()[q] by {
                assert(nm@.map_values(|s: String| s@)[q] == posts@[i as int].1.spec_names()[q]);
            }
        }
        allnames.push(nm);
        i = i + 1;
    }
    let mut errors: Vec<IOError> = Vec::new();
    let mut a: usize = 0;
    while a < nn
        invariant
            a <= nn,
            nn == posts@.len(),
            names_match(allnames@, posts@),
            forall|k: int|
                0 <= k < errors@.len() ==> dup_error_witnessed(#[trigger] errors@[k], posts@),
            forall|i2: int, j2: int, n2: Seq<char>|
                #![trigger posts@[i2].1.spec_names().contains(n2), posts@[j2].1.spec_names().contains(n2)]
                0 <= i2 < a && i2 < j2 < posts@.len() && posts@[i2].1.spec_names().contains(n2)
                    && posts@[j2].1.spec_names().contains(n2) ==> dup_recorded(
                    errors@,
                    posts@,
                    i2,
                    j2,
                    n2,
                ),
        decreases nn - a,
    {
        let mut b: usize = a + 1;
        while b < nn
            invariant
                a < nn,
                a + 1 <= b <= nn,
                nn == posts@.len(),
                names_match(allnames@, posts@),
                forall|k: int|
                    0 <= k < errors@.len() ==> dup_error_witnessed(#[trigger] errors@[k], posts@),
                forall|i2: int, j2: int, n2: Seq<char>|
                    #![trigger posts@[i2].1.spec_names().contains(n2), posts@[j2].1.spec_names().contains(n2)]
                    0 <= i2 < a && i2 < j2 < posts@.len() && posts@[i2].1.spec_names().contains(
                        n2,
                    ) && posts@[j2].1.spec_names().contains(n2) ==> dup_recorded(
                        errors@,
                        posts@,
                        i2,
                        j2,
                        n2,
                    ),
                forall|j2: int, n2: Seq<char>|
                    #![trigger posts@[j2].1.spec_names().contains(n2)]
                    a < j2 < b && posts@[a as int].1.spec_names().contains(n2) && posts@[j2]
                        .1.spec_names().contains(n2) ==> dup_recorded(
                        errors@,
                        posts@,
                        a as int,
                        j2,
                        n2,
                    ),
            decreases nn - b,
        {
            let ghost pre_errors = errors@;
            record_pair_collisions(&mut errors, &allnames, &posts, a, b);
            b = b + 1;
            proof {
                assert forall|k: int| 0 <= k < errors@.len() implies dup_error_witnessed(
                    #[trigger] errors@[k],
                    posts@,
                ) by {
                    if k < pre_errors.len() {
                        assert(errors@.take(pre_errors.len() as int)[k] == errors@[k]);
                        assert(errors@[k] == pre_errors[k]);
                    }
                }
                assert forall|i2: int, j2: int, n2: Seq<char>|
                    0 <= i2 < a && i2 < j2 < posts@.len() && (#[trigger] posts@[i2]
                        .1.spec_names().contains(n2)) && (#[trigger] posts@[j2]
                        .1.spec_names().contains(n2)) implies dup_recorded(
                    errors@,
                    posts@,
                    i2,
                    j2,
                    n2,
                ) by {
                    lemma_dup_recorded_grow(pre_errors, errors@, posts@, i2, j2, n2);
                }
                assert forall|j2: int, n2: Seq<char>|
                    a < j2 < b && posts@[a as int].1.spec_names().contains(n2) && #[trigger] posts@[
                        j2
                    ].1.spec_names().contains(n2) implies dup_recorded(
                    errors@,
                    posts@,
                    a as int,
                    j2,
                    n2,
                ) by {
                    if j2 < b - 1 {
                        lemma_dup_recorded_grow(pre_errors, errors@, posts@, a as int, j2, n2);
                    }
                }
            }
        }
        a = a + 1;
    }
    if errors.len() == 0 {
        proof {
            assert forall|i2: int, j2: int| 0 <= i2 < j2 < posts@.len() implies !(
            #[trigger] shares_name(posts@[i2].1, posts@[j2].1)) by {
                if shares_name(posts@[i2].1, posts@[j2].1) {
                    let n2 = choose|n2: Seq<char>|
                        #![trigger posts@[i2].1.spec_names().contains(n2), posts@[j2].1.spec_names().contains(n2)]
                        posts@[i2].1.spec_names().contains(n2) && posts@[j2]
                            .1.spec_names().contains(n2);
                    assert(dup_recorded(errors@, posts@, i2, j2, n2));
                    let k0 = choose|k0: int|
                        0 <= k0 < errors@.len() && #[trigger] is_dup_error_for(
                            errors@[k0],
                            n2,
                            posts@[i2].0,
                            posts@[j2].0,
                        );
                    assert(false);
                }
            }
        }
        let mut items: Vec<PostTypes> = Vec::new();
        let mut rest = posts;
        let ghost pv = rest@;
        while rest.len() > 0
            invariant
                items@.len() + rest@.len() == pv.len(),
                rest@ == pv.skip(items@.len() as int),
                forall|t: int| 0 <= t < items@.len() ==> #[trigger] items@[t] == pv[t].1,
            decreases rest.len(),
        {
            let (_src, item) = rest.remove(0);
            items.push(item);
            proof {
                assert(rest@ =~= pv.skip(items@.len() as int));
            }
        }
        proof {
            assert(items@ =~= pv.map_values(|p: (String, PostTypes)| p.1));
        }
        Ok(items)
    } else {
        proof {
            assert(dup_error_witnessed(errors@[0], posts@));
            let (i2, j2, n2) = choose|i2: int, j2: int, n2: Seq<char>|
                #![trigger is_dup_error_for(errors@[0], n2, posts@[i2].0, posts@[j2].0)]
                0 <= i2 < j2 < posts@.len() && posts@[i2].1.spec_names().contains(n2) && posts@[
                    j2
                ].1.spec_names().contains(n2) && is_dup_error_for(
                    errors@[0],
                    n2,
                    posts@[i2].0,
                    posts@[j2].0,
                );
            assert(shares_name(posts@[i2].1, posts@[j2].1));
            assert(!no_collisions(posts@));
        }
        Err(errors)
    }
}

/// Whether some item answers to the name.
pub open spec fn known_name(items: Seq<PostTypes>, n: Seq<char>) -> bool {
    exists|t: int| 0 <= t < items.len() && (#[trigger] items[t].spec_names()).contains(n)
}

/// The declared parent references that no item answers to, in
/// declaration order.
pub open spec fn unknown_refs(items: Seq<PostTypes>, parents: Seq<String>) -> Seq<String> {
    parents.filter(|p: String| !known_name(items, p@))
}

/// Every unresolvable parent reference of the first `upto` items, in
/// item order.
pub open spec fn ghost_parents(items: Seq<PostTypes>, upto: int) -> Seq<String>
    decreases upto,
{
    if upto <= 0 {
        Seq::empty()
    } else {
        ghost_parents(items, upto - 1) + unknown_refs(items, items[upto - 1].spec_parents())
    }
}

/// Whether `pt` is the placeholder created for an unresolved parent
/// reference: a post carrying that name and nothing else.
pub open spec fn is_fake_post_for(pt: PostTypes, name: String) -> bool {
    pt matches PostTypes::Post(p) && p.name == name && p.title@ == Seq::<char>::empty()
        && p.parents@ == Seq::<String>::empty() && p.aliases@ == Seq::<String>::empty()
        && p.dirname@ == Seq::<char>::empty() && p.image@ == Seq::<char>::empty() && p.year@
        == Seq::<char>::empty() && p.dl_url@ == Seq::<char>::empty() && p.body@ == Seq::<
        char,
    >::empty() && p.children@ == Seq::<TeraNextPost>::empty() && p.parent_names@ == Seq::<
        TeraNextPost,
    >::empty()
}

/// A placeholder post for an unresolved parent reference.
fn make_fake(name: String) -> (r: PostTypes)
    ensures
        is_fake_post_for(r, name),
{
    PostTypes::Post(
        Post {
            name,
            title: String::new(),
            parents: Vec::new(),
            aliases: Vec::new(),
            dirname: String::new(),
            image: String::new(),
            year: String::new(),
            dl_url: String::new(),
            body: String::new(),
            children: Vec::new(),
            parent_names: Vec::new(),
        },
    )
}

/// Creates a placeholder post for every declared parent reference that
/// no item answers to, one per reference in item order, so later graph
/// construction finds a node for each.
#[verifier::rlimit(30)]
pub fn get_fakeposts(posts: &Vec<PostTypes>) -> (r: Vec<PostTypes>)
    ensures
        r@.len() == ghost_parents(posts@, posts@.len() as int).len(),
        forall|k: int|
            0 <= k < r@.len() ==> is_fake_post_for(
                #[trigger] r@[k],
                ghost_parents(posts@, posts@.len() as int)[k],
            ),
{
    let n = posts.len();
    let mut flat: Vec<String> = Vec::new();
    let mut i: usize = 0;
    while i < n
        invariant
            i <= n,
            n == posts@.len(),
            forall|j: int|
                0 <= j < flat@.len() ==> known_name(posts@, (#[trigger] flat@[j])@),
            forall|t: int, n2: Seq<char>|
                0 <= t < i && #[trigger] posts@[t].spec_names().contains(n2) ==> exists|j: int|
                    0 <= j < flat@.len() && (#[trigger] flat@[j])@ == n2,
        decreases n - i,
    {
        let mut nm = posts[i].names();
        let ghost pre_flat = flat@;
        let ghost nmv = nm@;
        flat.append(&mut nm);
        i = i + 1;
        proof {
            assert forall|j: int| 0 <= j < flat@.len() implies known_name(
                posts@,
                (#[trigger] flat@[j])@,
            ) by {
                if j >= pre_flat.len() {
                    assert(flat@[j] == nmv[j - pre_flat.len()]);
                    assert(nmv.map_values(|s: String| s@)[j - pre_flat.len()] == posts@[
                        i as int - 1
                    ].spec_names()[j - pre_flat.len()]);
                    assert(posts@[i as int - 1].spec_names().contains(flat@[j]@));
                }
            }
            assert forall|t: int, n2: Seq<char>|
                0 <= t < i && #[trigger] posts@[t].spec_names().contains(n2) implies exists|
                j: int,
            |
                0 <= j < flat@.len() && (#[trigger] flat@[j])@ == n2 by {
                if t == i - 1 {
                    let q = choose|q: int|
                        0 <= q < posts@[t].spec_names().len() && #[trigger] posts@[t].spec_names()[q]
                            == n2;
                    assert(nmv.map_values(|s: String| s@)[q] == n2);
                    assert(flat@[pre_flat.len() + q]@ == n2);
                } else {
                    let j0 = choose|j0: int|
                        0 <= j0 < pre_flat.len() && (#[trigger] pre_flat[j0])@ == n2;
                    assert(flat@[j0]@ == n2);
                }
            }
        }
    }
    let mut out: Vec<PostTypes> = Vec::new();
    let mut t: usize = 0;
    proof {
        assert(ghost_parents(posts@, 0) =~= Seq::<String>::empty());
    }
    while t < n
        invariant
            t <= n,
            n == posts@.len(),
            forall|j: int|
                0 <= j < flat@.len() ==> known_name(posts@, (#[trigger] flat@[j])@),
            forall|t2: int, n2: Seq<char>|
                0 <= t2 < n && #[trigger] posts@[t2].spec_names().contains(n2) ==> exists|j: int|
                    0 <= j < flat@.len() && (#[trigger] flat@[j])@ == n2,
            out@.len() == ghost_parents(posts@, t as int).len(),
            forall|k: int|
                0 <= k < out@.len() ==> is_fake_post_for(
                    #[trigger] out@[k],
                    ghost_parents(posts@, t as int)[k],
                ),
        decreases n - t,
    {
        let parents = posts[t].parents();
        let np = parents.len();
        let mut k: usize = 0;
        proof {
            reveal(Seq::filter);
            assert(unknown_refs(posts@, parents@.take(0)) =~= Seq::<String>::empty());
            assert(out@.len() == (ghost_parents(posts@, t as int) + unknown_refs(
                posts@,
                parents@.take(0),
            )).len());
        }
        while k < np
            invariant
                k <= np,
                t < n,
                n == posts@.len(),
                np == parents@.len(),
                parents@ == posts@[t as int].spec_parents(),
                forall|j: int|
                    0 <= j < flat@.len() ==> known_name(posts@, (#[trigger] flat@[j])@),
                forall|t2: int, n2: Seq<char>|
                    0 <= t2 < n && #[trigger] posts@[t2].spec_names().contains(n2) ==> exists|
                        j: int,
                    |
                        0 <= j < flat@.len() && (#[trigger] flat@[j])@ == n2,
                out@.len() == (ghost_parents(posts@, t as int) + unknown_refs(
                    posts@,
                    parents@.take(k as int),
                )).len(),
                forall|k2: int|
                    0 <= k2 < out@.len() ==> is_fake_post_for(
                        #[trigger] out@[k2],
                        (ghost_parents(posts@, t as int) + unknown_refs(
                            posts@,
                            parents@.take(k as int),
                        ))[k2],
                    ),
            decreases np - k,
        {
            let p = &parents[k];
            let found = contains_name(&flat, p);
            if !found {
                out.push(make_fake(p.clone()));
            }
            k = k + 1;
            proof {
                reveal(Seq::filter);
                assert(parents@.take(k as int).drop_last() =~= parents@.take(k as int - 1));
                assert(parents@.take(k as int).last() == parents@[k - 1]);
                if found {
                    let j = choose|j: int| 0 <= j < flat@.len() && (#[trigger] flat@[j])@ == p@;
                    assert(known_name(posts@, parents@[k - 1]@));
                } else {
                    if known_name(posts@, parents@[k - 1]@) {
                        let t2 = choose|t2: int|
                            0 <= t2 < posts@.len() && #[trigger] posts@[t2].spec_names().contains(
                                parents@[k - 1]@,
                            );
                        let j = choose|j: int|
                            0 <= j < flat@.len() && (#[trigger] flat@[j])@ == parents@[k - 1]@;
                        assert(false);
                    }
                }
                assert(unknown_refs(posts@, parents@.take(k as int)) =~= if known_name(
                    posts@,
                    parents@[k - 1]@,
                ) {
                    unknown_refs(posts@, parents@.take(k as int - 1))
                } else {
                    unknown_refs(posts@, parents@.take(k as int - 1)).push(parents@[k - 1])
                });
            }
        }
        t = t + 1;
        proof {
            assert(parents@.take(np as int) =~= parents@);
            assert(ghost_parents(posts@, t as int) == ghost_parents(posts@, t as int - 1)
                + unknown_refs(posts@, posts@[t as int - 1].spec_parents()));
        }
    }
    proof {
        assert(ghost_parents(posts@, n as int) == ghost_parents(posts@, posts@.len() as int));
    }
    out
}

/// Turns (path, title) pairs into link records.
fn make_links(pairs: Vec<(String, String)>) -> (r: Vec<TeraNextPost>)
    ensures
        r@ == pairs@.map_values(|c: (String, String)| TeraNextPost { path: c.0, title: c.1 }),
{
    let mut out: Vec<TeraNextPost> = Vec::new();
    let ghost pairs_view = pairs@;
    let mut rest = pairs;
    let n = rest.len();
    let mut i: usize = 0;
    while i < n
        invariant
            i <= n,
            n == pairs_view.len(),
            rest@ == pairs_view.skip(i as int),
            out@.len() == i,
            forall|j: int|
                0 <= j < i ==> out@[j] == (TeraNextPost {
                    path: pairs_view[j].0,
                    title: pairs_view[j].1,
                }),
        decreases n - i,
    {
        let (path, title) = rest.remove(0);
        out.push(TeraNextPost { path, title });
        i = i + 1;
        proof {
            assert(rest@ =~= pairs_view.skip(i as int));
        }
    }
    proof {
        assert(out@ =~= pairs_view.map_values(
            |c: (String, String)| TeraNextPost { path: c.0, title: c.1 },
        ));
    }
    out
}

} // verus!
