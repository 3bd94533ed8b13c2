//! Address parsing and resolution.
//!
//! A message address has the form `[role@]project@owner[#app1,app2,...]`.
//! The app list is case-insensitive and defaults to the built-in app.
//! Addresses of the built-in app resolve to browser targets through the
//! project metadata; other apps resolve through the external index, keyed
//! by the address text itself.

use vstd::prelude::*;

use crate::ids::{default_app_id, default_app_id_str, AppId};
use crate::strmap::{map_of, StrMap};
use crate::strutil::{find_char_from, lower_of, rfind_char, spec_find_char, spec_rfind_char};
use crate::types::{ProjectMetadata, RoleMetadata};

verus! {

/// A concrete browser target: one role of one project.
pub struct BrowserAddress {
    pub project_id: String,
    pub role_id: String,
}

impl View for BrowserAddress {
    type V = (Seq<char>, Seq<char>);

    open spec fn view(&self) -> (Seq<char>, Seq<char>) {
        (self.project_id@, self.role_id@)
    }
}

/// The views of a sequence of app identifiers.
pub open spec fn app_views(v: Seq<AppId>) -> Seq<Seq<char>> {
    v.map(|i: int, a: AppId| a@)
}

/// Each piece lowercased.
pub open spec fn lowered(v: Seq<Seq<char>>) -> Seq<Seq<char>> {
    v.map(|i: int, p: Seq<char>| lower_of(p))
}

/// The pieces of `s` split at every comma; no commas means one piece.
pub open spec fn spec_split_commas(s: Seq<char>) -> Seq<Seq<char>>
    decreases s.len(),
{
    match spec_find_char(s, ',', 0) {
        Some(p) => if p < s.len() {
            seq![s.subrange(0, p as int)] + spec_split_commas(
                s.subrange((p + 1) as int, s.len() as int),
            )
        } else {
            seq![s]
        },
        None => seq![s],
    }
}

/// The mathematical value of a parsed client address.
#[verifier::ext_equal]
pub struct ClientAddressModel {
    pub address: Seq<char>,
    pub user_id: Seq<char>,
    pub app_ids: Seq<Seq<char>>,
}

/// How an address string parses: the text before the first `#` splits at
/// its last `@` into the address part and the owner; the text after the
/// `#`, split at commas and lowercased, gives the app list, defaulting to
/// the built-in app.
pub open spec fn spec_parse_client_address(s: Seq<char>) -> ClientAddressModel {
    let main = match spec_find_char(s, '#', 0) {
        Some(h) => s.subrange(0, h as int),
        None => s,
    };
    let apps = match spec_find_char(s, '#', 0) {
        Some(h) => lowered(spec_split_commas(s.subrange((h + 1) as int, s.len() as int))),
        None => seq![default_app_id()],
    };
    match spec_rfind_char(main, '@') {
        Some(p) => ClientAddressModel {
            address: main.subrange(0, p as int),
            user_id: main.subrange((p + 1) as int, main.len() as int),
            app_ids: apps,
        },
        None => ClientAddressModel { address: Seq::empty(), user_id: main, app_ids: apps },
    }
}

/// A parsed client address.
pub struct ClientAddress {
    pub address: String,
    pub user_id: String,
    pub app_ids: Vec<AppId>,
}

impl View for ClientAddress {
    type V = ClientAddressModel;

    open spec fn view(&self) -> ClientAddressModel {
        ClientAddressModel {
            address: self.address@,
            user_id: self.user_id@,
            app_ids: app_views(self.app_ids@),
        }
    }
}

/// The key under which external networks file this address: the part of
/// the address before any `#`, reconstructed.
pub open spec fn spec_app_string(a: ClientAddressModel) -> Seq<char> {
    if a.address.len() == 0 {
        a.user_id
    } else {
        a.address + "@"@ + a.user_id
    }
}

/// The project name an address of the built-in app refers to: the text of
/// the address part after its last `@`.
pub open spec fn spec_project_name(a: ClientAddressModel) -> Seq<char> {
    match spec_rfind_char(a.address, '@') {
        Some(p) => a.address.subrange((p + 1) as int, a.address.len() as int),
        None => a.address,
    }
}

/// The role name an address requests, when it names one: the chunk of the
/// address part between the last two `@`s (or its start).  An address
/// without `@`, or with an empty role chunk, requests every role of the
/// project.
pub open spec fn spec_role_name(a: ClientAddressModel) -> Option<Seq<char>> {
    match spec_rfind_char(a.address, '@') {
        Some(p) => {
            let before = a.address.subrange(0, p as int);
            let name = match spec_rfind_char(before, '@') {
                Some(p2) => before.subrange((p2 + 1) as int, before.len() as int),
                None => before,
            };
            if name.len() == 0 {
                None
            } else {
                Some(name)
            }
        },
        None => None,
    }
}

impl ClientAddress {
    /// Parses an address string.  Parsing is total: any string denotes an
    /// address.
    pub fn parse(s: &str) -> (r: ClientAddress)
        ensures
            r@ == spec_parse_client_address(s@),
    {
        let len = s.unicode_len();
        let (main, apps): (String, Vec<AppId>) = match find_char_from(s, '#', 0) {
            Some(h) => {
                let main = s.substring_char(0, h).to_owned();
                let apps_text = s.substring_char(h + 1, len);
                let apps = split_app_ids(apps_text);
                (main, apps)
            },
            None => {
                let default = AppId(default_app_id_str().to_owned());
                proof {
                    assert(app_views(seq![default]) =~= seq![default_app_id()]);
                }
                (s.to_owned(), vec![default])
            },
        };
        let main_len = main.as_str().unicode_len();
        match rfind_char(main.as_str(), '@') {
            Some(p) => {
                let address = main.as_str().substring_char(0, p);
                let user_id = main.as_str().substring_char(p + 1, main_len);
                let r = ClientAddress {
                    address: address.to_owned(),
                    user_id: user_id.to_owned(),
                    app_ids: apps,
                };
                proof {
                    assert(r@ =~= spec_parse_client_address(s@));
                }
                r
            },
            None => {
                let r = ClientAddress { address: String::new(), user_id: main, app_ids: apps };
                proof {
                    assert(r@.address =~= spec_parse_client_address(s@).address);
                    assert(r@ =~= spec_parse_client_address(s@));
                }
                r
            },
        }
    }

    /// Reconstructs the pre-`#` text of the address, the key the external
    /// index files it under.
    pub fn to_app_string(&self) -> (r: String)
        ensures
            r@ == spec_app_string(self@),
    {
        if self.address.as_str().unicode_len() == 0 {
            self.user_id.clone()
        } else {
            let mut r = self.address.clone();
            r.append("@");
            r.append(self.user_id.as_str());
            r
        }
    }

    /// The store query an address of the built-in app requires: the
    /// project name it refers to and the owner.
    pub fn project_query(&self) -> (r: (String, String))
        ensures
            r.0@ == spec_project_name(self@),
            r.1@ == self@.user_id,
    {
        let alen = self.address.as_str().unicode_len();
        let name = match rfind_char(self.address.as_str(), '@') {
            Some(p) => self.address.as_str().substring_char(p + 1, alen).to_owned(),
            None => self.address.clone(),
        };
        (name, self.user_id.clone())
    }

    /// The role name the address requests, if it names one.
    pub fn requested_role(&self) -> (r: Option<String>)
        ensures
            match r {
                Some(name) => spec_role_name(self@) == Some(name@),
                None => spec_role_name(self@) is None,
            },
    {
        match rfind_char(self.address.as_str(), '@') {
            Some(p) => {
                let before = self.address.as_str().substring_char(0, p);
                let blen = before.unicode_len();
                let name = match rfind_char(before, '@') {
                    Some(p2) => before.substring_char(p2 + 1, blen),
                    None => before,
                };
                if name.unicode_len() == 0 {
                    None
                } else {
                    Some(name.to_owned())
                }
            },
            None => None,
        }
    }
}

/// Splits an app list at commas, lowercasing each piece.
fn split_app_ids(text: &str) -> (r: Vec<AppId>)
    ensures
        app_views(r@) == lowered(spec_split_commas(text@)),
{
    let mut apps: Vec<AppId> = Vec::new();
    let mut rest: String = text.to_owned();
    loop
        invariant
            app_views(apps@) + lowered(spec_split_commas(rest@)) =~= lowered(
                spec_split_commas(text@),
            ),
        decreases rest@.len(),
    {
        let rest_len = rest.as_str().unicode_len();
        match find_char_from(rest.as_str(), ',', 0) {
            Some(p) => {
                let piece = rest.as_str().substring_char(0, p);
                let tail = rest.as_str().substring_char(p + 1, rest_len).to_owned();
                let app = AppId::new(piece);
                proof {
                    let old_views = app_views(apps@);
                    assert(spec_split_commas(rest@) == seq![rest@.subrange(0, p as int)]
                        + spec_split_commas(rest@.subrange((p + 1) as int, rest@.len() as int)));
                    assert(app_views(apps@.push(app)) =~= old_views.push(app@));
                    assert(lowered(spec_split_commas(rest@))
                        =~= seq![lower_of(rest@.subrange(0, p as int))] + lowered(
                        spec_split_commas(rest@.subrange((p + 1) as int, rest@.len() as int))));
                    assert(app_views(apps@.push(app)) + lowered(spec_split_commas(tail@))
                        =~= app_views(apps@) + lowered(spec_split_commas(rest@)));
                }
                apps.push(app);
                rest = tail;
            },
            None => {
                let app = AppId::new(rest.as_str());
                proof {
                    assert(spec_split_commas(rest@) == seq![rest@]);
                    assert(lowered(spec_split_commas(rest@)) =~= seq![lower_of(rest@)]);
                    assert(app_views(apps@.push(app)) =~= app_views(apps@).push(app@));
                    assert(app_views(apps@.push(app)) =~= app_views(apps@) + lowered(
                        spec_split_commas(rest@),
                    ));
                }
                apps.push(app);
                proof {
                    assert(app_views(apps@) =~= lowered(spec_split_commas(text@)));
                }
                return apps;
            },
        }
    }
}

/// The name-to-identifier map of a project's roles; when two roles share
/// a name, the later entry wins, as collecting the pairs into a map does.
pub open spec fn spec_name_to_id(entries: Seq<(String, RoleMetadata)>) -> Map<Seq<char>, String> {
    map_of(entries.map(|i: int, e: (String, RoleMetadata)| (e.1.name, e.0)))
}

/// The role names an address requests of a project: the single named role,
/// or every role of the project in entry order.
pub open spec fn spec_requested_roles(a: ClientAddressModel, entries: Seq<(String, RoleMetadata)>)
    -> Seq<Seq<char>> {
    match spec_role_name(a) {
        Some(r) => seq![r],
        None => entries.map(|i: int, e: (String, RoleMetadata)| e.1.name@),
    }
}

/// The browser targets for a list of requested role names: one per name
/// the project knows, in request order.
pub open spec fn spec_resolved(
    requested: Seq<Seq<char>>,
    n2i: Map<Seq<char>, String>,
    pid: Seq<char>,
) -> Seq<(Seq<char>, Seq<char>)>
    decreases requested.len(),
{
    if requested.len() == 0 {
        Seq::empty()
    } else {
        let rest = spec_resolved(requested.drop_last(), n2i, pid);
        if n2i.contains_key(requested.last()) {
            rest.push((pid, n2i[requested.last()]@))
        } else {
            rest
        }
    }
}

/// The views of a sequence of browser addresses.
pub open spec fn browser_views(v: Seq<BrowserAddress>) -> Seq<(Seq<char>, Seq<char>)> {
    v.map(|i: int, b: BrowserAddress| b@)
}

/// Resolves an address of the built-in app against the project metadata
/// the store returned for its name and owner: one browser target per
/// requested role name the project knows.  No metadata means no targets.
pub fn resolve_address(addr: &ClientAddress, metadata: Option<&ProjectMetadata>) -> (r: Vec<
    BrowserAddress,
>)
    requires
        match metadata {
            Some(md) => md.wf(),
            None => true,
        },
    ensures
        match metadata {
            None => r@.len() == 0,
            Some(md) => browser_views(r@) == spec_resolved(
                spec_requested_roles(addr@, md.roles.entries()),
                spec_name_to_id(md.roles.entries()),
                md.id@,
            ),
        },
{
    let md = match metadata {
        None => {
            return Vec::new();
        },
        Some(md) => md,
    };
    let n = md.roles.len();
    let ghost mapped = md.roles.entries().map(|i: int, e: (String, RoleMetadata)| (e.1.name, e.0));

    // Build the name-to-identifier map, later entries overwriting earlier.
    let mut n2i: StrMap<String> = StrMap::new();
    let mut i: usize = 0;
    while i < n
        invariant
            n == md.roles.entries().len(),
            i <= n,
            md.wf(),
            n2i.wf(),
            mapped == md.roles.entries().map(|i: int, e: (String, RoleMetadata)| (e.1.name, e.0)),
            n2i@ == map_of(mapped.subrange(0, i as int)),
        decreases n - i,
    {
        let name = md.roles.value_at(i).name.clone();
        let id = md.roles.key_at(i).clone();
        proof {
            let prefix = mapped.subrange(0, i + 1);
            assert(prefix.drop_last() =~= mapped.subrange(0, i as int));
            assert(prefix.last() == mapped[i as int]);
            assert(map_of(prefix) == map_of(mapped.subrange(0, i as int)).insert(
                mapped[i as int].0@,
                mapped[i as int].1,
            ));
            assert(mapped[i as int].0@ == name@);
        }
        n2i.insert(name, id);
        proof {
            assert(n2i@ =~= map_of(mapped.subrange(0, i + 1)));
        }
        i = i + 1;
    }
    proof {
        assert(mapped.subrange(0, n as int) =~= mapped);
    }

    // The requested role names.
    let mut requested: Vec<String> = Vec::new();
    match addr.requested_role() {
        Some(name) => {
            requested.push(name);
            proof {
                assert(requested@.map(|i: int, s: String| s@) =~= spec_requested_roles(
                    addr@,
                    md.roles.entries(),
                ));
            }
        },
        None => {
            let mut j: usize = 0;
            while j < n
                invariant
                    n == md.roles.entries().len(),
                    j <= n,
                    spec_role_name(addr@) is None,
                    requested@.len() == j,
                    forall|t: int| 0 <= t < j ==> requested@[t]@ == md.roles.entries()[t].1.name@,
                decreases n - j,
            {
                requested.push(md.roles.value_at(j).name.clone());
                j = j + 1;
            }
            proof {
                assert(requested@.map(|i: int, s: String| s@) =~= spec_requested_roles(
                    addr@,
                    md.roles.entries(),
                ));
            }
        },
    }

    // One target per requested name the project knows.
    let m = requested.len();
    let mut targets: Vec<BrowserAddress> = Vec::new();
    let ghost req_views = requested@.map(|i: int, s: String| s@);
    let mut k: usize = 0;
    while k < m
        invariant
            m == requested@.len(),
            k <= m,
            n2i.wf(),
            req_views == requested@.map(|i: int, s: String| s@),
            browser_views(targets@) == spec_resolved(
                req_views.subrange(0, k as int),
                n2i@,
                md.id@,
            ),
        decreases m - k,
    {
        proof {
            let prefix = req_views.subrange(0, k + 1);
            assert(prefix.drop_last() =~= req_views.subrange(0, k as int));
            assert(prefix.last() == req_views[k as int]);
        }
        match n2i.get(requested[k].as_str()) {
            Some(id) => {
                let target = BrowserAddress {
                    project_id: md.id.0.clone(),
                    role_id: id.clone(),
                };
                proof {
                    assert(browser_views(targets@.push(target)) =~= browser_views(targets@).push(
                        target@,
                    ));
                }
                targets.push(target);
                proof {
                    assert(browser_views(targets@) =~= spec_resolved(
                        req_views.subrange(0, k + 1),
                        n2i@,
                        md.id@,
                    ));
                }
            },
            None => {
                proof {
                    assert(browser_views(targets@) =~= spec_resolved(
                        req_views.subrange(0, k + 1),
                        n2i@,
                        md.id@,
                    ));
                }
            },
        }
        k = k + 1;
    }
    proof {
        assert(req_views.subrange(0, m as int) =~= req_views);
        assert(req_views =~= spec_requested_roles(addr@, md.roles.entries()));
        assert(n2i@ == spec_name_to_id(md.roles.entries()));
    }
    targets
}

} // verus!
