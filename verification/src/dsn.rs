//! Connection-string handling: a set of `key=value` pairs with unique keys,
//! an SSL mode derived from the `sslmode` key, parsing from the
//! space-separated textual form, scrubbing of the TLS-related keys, and
//! rendering back to canonical (key-sorted) text.
//!
//! What only the environment can supply — the operating-system user name,
//! environment variables, tilde-expanded certificate paths — arrives already
//! resolved, as the plain strings of a [`DsnDefaults`].

use vstd::prelude::*;
use vstd::string::StrSliceExecFns;
use vstd::string::StringExecFns;
use crate::text::find_from;
use crate::text::lemma_find_from_is;
use crate::text::seq_lt;
use crate::text::split_at_char;
use crate::text::split_char;
use crate::text::str_eq;
use crate::text::str_lt;
use crate::text::views;

verus! {

/// The environment-resolved defaults a connection-string set starts from:
/// user and database names, host, SSL mode, and the four TLS file paths.
pub struct DsnDefaults {
    /// Connecting user name.
    pub user: String,
    /// Database name.
    pub dbname: String,
    /// Host, or a socket directory.
    pub host: String,
    /// SSL mode, `disable` switching TLS off and `verify-full` asking for
    /// hostname verification.
    pub sslmode: String,
    /// Client certificate path.
    pub sslcert: String,
    /// Client key path.
    pub sslkey: String,
    /// Root certificate path.
    pub sslrootcert: String,
    /// Certificate revocation list path.
    pub sslcrl: String,
}

/// A connection string: `key=value` pairs with unique keys, and the SSL mode
/// the `sslmode` key last set.
pub struct Dsn {
    /// The pairs, in insertion order; keys are unique.
    pub kv: Vec<(String, String)>,
    /// The SSL mode in force.
    pub ssl_mode: String,
}

/// The key-to-value map a sequence of pairs denotes; a later pair wins over
/// an earlier one of the same key.
pub open spec fn kv_map(s: Seq<(String, String)>) -> Map<Seq<char>, Seq<char>>
    decreases s.len(),
{
    if s.len() == 0 {
        Map::empty()
    } else {
        kv_map(s.drop_last()).insert(s.last().0@, s.last().1@)
    }
}

proof fn lemma_kv_map_dom(s: Seq<(String, String)>)
    ensures
        forall|k: Seq<char>|
            #[trigger] kv_map(s).dom().contains(k) <==> exists|i: int|
                0 <= i < s.len() && s[i].0@ == k,
    decreases s.len(),
{
    if s.len() > 0 {
        lemma_kv_map_dom(s.drop_last());
        assert forall|k: Seq<char>| #[trigger] kv_map(s).dom().contains(k) implies exists|i: int|
            0 <= i < s.len() && s[i].0@ == k by {
            if k == s.last().0@ {
                assert(s[s.len() - 1].0@ == k);
            } else {
                assert(kv_map(s.drop_last()).dom().contains(k));
                let i = choose|i: int| 0 <= i < s.drop_last().len() && s.drop_last()[i].0@ == k;
                assert(s.drop_last()[i] == s[i]);
                assert(s[i].0@ == k);
            }
        }
        assert forall|k: Seq<char>|
            exists|i: int| 0 <= i < s.len() && s[i].0@ == k implies #[trigger] kv_map(
            s,
        ).dom().contains(k) by {
            let i = choose|i: int| 0 <= i < s.len() && s[i].0@ == k;
            if i < s.len() - 1 {
                assert(s.drop_last()[i] == s[i]);
                assert(exists|j: int| 0 <= j < s.drop_last().len() && s.drop_last()[j].0@ == k);
                assert(kv_map(s.drop_last()).dom().contains(k));
            } else {
                assert(s.last().0@ == k);
            }
        }
    }
}

proof fn lemma_kv_map_value(s: Seq<(String, String)>, i: int)
    requires
        0 <= i < s.len(),
        forall|j: int| 0 <= j < s.len() && j != i ==> #[trigger] s[j].0@ != s[i].0@,
    ensures
        kv_map(s).dom().contains(s[i].0@),
        kv_map(s)[s[i].0@] == s[i].1@,
    decreases s.len(),
{
    if i == s.len() - 1 {
    } else {
        assert(s.drop_last()[i] == s[i]);
        assert(forall|j: int|
            0 <= j < s.drop_last().len() && j != i ==> #[trigger] s.drop_last()[j].0@
                != s.drop_last()[i].0@);
        lemma_kv_map_value(s.drop_last(), i);
        assert(s[s.len() - 1].0@ != s[i].0@);
    }
}

proof fn lemma_kv_map_update(s: Seq<(String, String)>, i: int, p: (String, String))
    requires
        0 <= i < s.len(),
        p.0@ == s[i].0@,
        forall|j: int| 0 <= j < s.len() && j != i ==> #[trigger] s[j].0@ != p.0@,
    ensures
        kv_map(s.update(i, p)) == kv_map(s).insert(p.0@, p.1@),
    decreases s.len(),
{
    let su = s.update(i, p);
    if i == s.len() - 1 {
        assert(su.drop_last() =~= s.drop_last());
        assert(kv_map(s).insert(p.0@, p.1@) =~= kv_map(s.drop_last()).insert(p.0@, p.1@));
    } else {
        assert(su.drop_last() =~= s.drop_last().update(i, p));
        assert(s.drop_last()[i] == s[i]);
        assert(forall|j: int|
            0 <= j < s.drop_last().len() && j != i ==> #[trigger] s.drop_last()[j].0@ != p.0@);
        lemma_kv_map_update(s.drop_last(), i, p);
        assert(su.last() == s.last());
        assert(s.last().0@ != p.0@);
        assert(kv_map(su) =~= kv_map(s).insert(p.0@, p.1@));
    }
}

impl Dsn {
    /// Keys are unique.
    pub open spec fn wf(self) -> bool {
        forall|i: int, j: int|
            0 <= i < j < self.kv@.len() ==> #[trigger] self.kv@[i].0@ != #[trigger] self.kv@[j].0@
    }

    /// The key-to-value map this connection string denotes.
    pub open spec fn as_map(self) -> Map<Seq<char>, Seq<char>> {
        kv_map(self.kv@)
    }

    /// Stores `value` under `key`, replacing what the key held; setting
    /// `sslmode` also switches the SSL mode in force.
    pub fn set_value(&mut self, key: &str, value: &str)
        requires
            old(self).wf(),
        ensures
            final(self).wf(),
            final(self).as_map() == old(self).as_map().insert(key@, value@),
            final(self).ssl_mode@ == if key@ == "sslmode"@ {
                value@
            } else {
                old(self).ssl_mode@
            },
    {
        let n = self.kv.len();
        let mut i: usize = 0;
        while i < n && !str_eq(self.kv[i].0.as_str(), key)
            invariant
                0 <= i <= n,
                n == self.kv@.len(),
                forall|j: int| 0 <= j < i ==> #[trigger] self.kv@[j].0@ != key@,
                self == old(self),
            decreases n - i,
        {
            i = i + 1;
        }
        let pair = (key.to_owned(), value.to_owned());
        if i < n {
            let ghost before = self.kv@;
            proof {
                assert(before[i as int].0@ == key@);
                assert forall|j: int| 0 <= j < before.len() && j != i implies #[trigger] before[j].0@
                    != pair.0@ by {
                    if j > i {
                        assert(before[i as int].0@ != before[j].0@);
                    }
                }
                lemma_kv_map_update(before, i as int, pair);
            }
            self.kv[i] = pair;
            proof {
                assert forall|a: int, b: int|
                    0 <= a < b < self.kv@.len() implies #[trigger] self.kv@[a].0@
                    != #[trigger] self.kv@[b].0@ by {
                    assert(old(self).kv@[a].0@ != old(self).kv@[b].0@);
                }
            }
        } else {
            self.kv.push(pair);
            proof {
                assert(self.kv@.drop_last() =~= old(self).kv@);
                assert forall|a: int, b: int|
                    0 <= a < b < self.kv@.len() implies #[trigger] self.kv@[a].0@
                    != #[trigger] self.kv@[b].0@ by {
                    if b < self.kv@.len() - 1 {
                        assert(old(self).kv@[a].0@ != old(self).kv@[b].0@);
                    } else {
                        assert(self.kv@[a] == old(self).kv@[a]);
                        assert(self.kv@[b].0@ == key@);
                    }
                }
            }
        }
        if str_eq(key, "sslmode") {
            self.ssl_mode = value.to_owned();
        }
    }

    /// The value under `key`, or `default` when the key is absent.
    pub fn get_value(&self, key: &str, default: &str) -> (res: String)
        requires
            self.wf(),
        ensures
            self.as_map().dom().contains(key@) ==> res@ == self.as_map()[key@],
            !self.as_map().dom().contains(key@) ==> res@ == default@,
    {
        let n = self.kv.len();
        proof {
            lemma_kv_map_dom(self.kv@);
        }
        let mut i: usize = 0;
        while i < n
            invariant
                0 <= i <= n,
                n == self.kv@.len(),
                self.wf(),
                forall|j: int| 0 <= j < i ==> #[trigger] self.kv@[j].0@ != key@,
            decreases n - i,
        {
            if str_eq(self.kv[i].0.as_str(), key) {
                proof {
                    assert forall|j: int|
                        0 <= j < self.kv@.len() && j != i implies #[trigger] self.kv@[j].0@
                        != self.kv@[i as int].0@ by {
                        if j > i {
                            assert(self.kv@[i as int].0@ != self.kv@[j].0@);
                        }
                    }
                    lemma_kv_map_value(self.kv@, i as int);
                }
                return self.kv[i].1.clone();
            }
            i = i + 1;
        }
        default.to_owned()
    }

    /// Whether TLS is in use: every SSL mode but `disable` asks for it.
    pub fn use_tls(&self) -> (r: bool)
        ensures
            r == (self.ssl_mode@ != "disable"@),
    {
        !str_eq(self.ssl_mode.as_str(), "disable")
    }

    /// Whether the server certificate's hostname must be verified: only the
    /// `verify-full` SSL mode asks for it.
    pub fn verify_hostname(&self) -> (r: bool)
        ensures
            r == (self.ssl_mode@ == "verify-full"@),
    {
        str_eq(self.ssl_mode.as_str(), "verify-full")
    }

    /// A deep copy: the same pairs and SSL mode.
    pub fn copy(&self) -> (res: Dsn)
        ensures
            res.kv@ == self.kv@,
            res.ssl_mode@ == self.ssl_mode@,
    {
        let n = self.kv.len();
        let mut kv: Vec<(String, String)> = Vec::new();
        let mut i: usize = 0;
        while i < n
            invariant
                0 <= i <= n,
                n == self.kv@.len(),
                kv@ =~= self.kv@.take(i as int),
            decreases n - i,
        {
            kv.push((self.kv[i].0.clone(), self.kv[i].1.clone()));
            proof {
                assert(kv@ =~= self.kv@.take(i + 1));
            }
            i = i + 1;
        }
        proof {
            assert(self.kv@.take(n as int) =~= self.kv@);
        }
        Dsn { kv, ssl_mode: self.ssl_mode.clone() }
    }

    /// The copy that connects without TLS: every `ssl*` key removed and the
    /// SSL mode forced to `disable`.
    pub fn cleanse(&self) -> (res: Dsn)
        requires
            self.wf(),
        ensures
            res.wf(),
            res.as_map() == cleansed_map(self.as_map()),
            res.ssl_mode@ == "disable"@,
    {
        let n = self.kv.len();
        let mut kv: Vec<(String, String)> = Vec::new();
        let mut i: usize = 0;
        proof {
            assert(self.kv@.take(0) =~= Seq::<(String, String)>::empty());
            assert(kv_map(kv@) =~= cleansed_map(kv_map(self.kv@.take(0))));
        }
        while i < n
            invariant
                0 <= i <= n,
                n == self.kv@.len(),
                self.wf(),
                kv_map(kv@) == cleansed_map(kv_map(self.kv@.take(i as int))),
                forall|a: int, b: int|
                    0 <= a < b < kv@.len() ==> #[trigger] kv@[a].0@ != #[trigger] kv@[b].0@,
                forall|j: int|
                    0 <= j < kv@.len() ==> exists|l: int|
                        0 <= l < i && #[trigger] kv@[j].0@ == self.kv@[l].0@,
            decreases n - i,
        {
            let key = self.kv[i].0.as_str();
            let ghost old_kv = kv@;
            let ghost step_map = kv_map(self.kv@.take(i as int));
            proof {
                assert(self.kv@.take(i + 1).drop_last() =~= self.kv@.take(i as int));
                assert(kv_map(self.kv@.take(i + 1)) == step_map.insert(
                    self.kv@[i as int].0@,
                    self.kv@[i as int].1@,
                ));
            }
            if !(str_eq(key, "sslmode") || str_eq(key, "sslcert") || str_eq(key, "sslkey")
                || str_eq(key, "sslrootcert") || str_eq(key, "sslcrl")) {
                kv.push((self.kv[i].0.clone(), self.kv[i].1.clone()));
                proof {
                    assert(kv@.drop_last() =~= old_kv);
                    assert(kv_map(kv@) == kv_map(old_kv).insert(
                        self.kv@[i as int].0@,
                        self.kv@[i as int].1@,
                    ));
                    assert(kv_map(kv@) =~= cleansed_map(kv_map(self.kv@.take(i + 1))));
                    assert forall|a: int, b: int|
                        0 <= a < b < kv@.len() implies #[trigger] kv@[a].0@
                        != #[trigger] kv@[b].0@ by {
                        if b == kv@.len() - 1 {
                            let l = choose|l: int|
                                0 <= l < i && #[trigger] old_kv[a].0@ == self.kv@[l].0@;
                            assert(self.kv@[l].0@ != self.kv@[i as int].0@);
                        }
                    }
                    assert forall|j: int| 0 <= j < kv@.len() implies exists|l: int|
                        0 <= l < i + 1 && #[trigger] kv@[j].0@ == self.kv@[l].0@ by {
                        if j < kv@.len() - 1 {
                            let l = choose|l: int|
                                0 <= l < i && #[trigger] old_kv[j].0@ == self.kv@[l].0@;
                            assert(0 <= l < i + 1 && kv@[j].0@ == self.kv@[l].0@);
                        } else {
                            assert(kv@[j].0@ == self.kv@[i as int].0@);
                        }
                    }
                }
            } else {
                proof {
                    assert(kv_map(kv@) =~= cleansed_map(kv_map(self.kv@.take(i + 1))));
                }
            }
            i = i + 1;
        }
        proof {
            assert(self.kv@.take(n as int) =~= self.kv@);
        }
        Dsn { kv, ssl_mode: "disable".to_owned() }
    }

    /// The canonical text: every pair as `key=value`, sorted, separated by
    /// single spaces.
    pub fn to_string(&self) -> (res: String)
        ensures
            res@ == render_spec(self.kv@),
    {
        let n = self.kv.len();
        let mut renders: Vec<String> = Vec::new();
        let mut i: usize = 0;
        proof {
            reveal_strlit("=");
            assert(views(renders@) =~= renders_of(self.kv@.take(0)));
        }
        while i < n
            invariant
                0 <= i <= n,
                n == self.kv@.len(),
                views(renders@) == renders_of(self.kv@.take(i as int)),
            decreases n - i,
        {
            let ghost old_renders = renders@;
            let mut r = String::new();
            r.append(self.kv[i].0.as_str());
            r.append("=");
            r.append(self.kv[i].1.as_str());
            renders.push(r);
            proof {
                reveal_strlit("=");
                assert("="@ =~= seq!['=']);
                assert(views(renders@) =~= views(old_renders).push(
                    render_pair(self.kv@[i as int]),
                ));
                assert(views(renders@) =~= renders_of(self.kv@.take(i + 1)));
            }
            i = i + 1;
        }
        proof {
            assert(self.kv@.take(n as int) =~= self.kv@);
        }
        let m = renders.len();
        let mut sorted: Vec<String> = Vec::new();
        i = 0;
        proof {
            assert(views(renders@).take(0) =~= Seq::<Seq<char>>::empty());
            assert(views(sorted@) =~= sort_renders(views(renders@).take(0)));
        }
        while i < m
            invariant
                0 <= i <= m,
                m == renders@.len(),
                views(sorted@) == sort_renders(views(renders@).take(i as int)),
            decreases m - i,
        {
            let x = renders[i].clone();
            let sn = sorted.len();
            let mut p: usize = 0;
            while p < sn && str_lt(sorted[p].as_str(), x.as_str())
                invariant
                    0 <= p <= sn,
                    sn == sorted@.len(),
                    forall|j: int| 0 <= j < p ==> seq_lt(#[trigger] views(sorted@)[j], x@),
                decreases sn - p,
            {
                p = p + 1;
            }
            let ghost old_sorted = sorted@;
            sorted.insert(p, x);
            proof {
                lemma_insert_sorted_at(views(old_sorted), x@, p as int);
                assert(views(sorted@) =~= views(old_sorted).insert(p as int, x@));
                assert(views(renders@).take(i + 1).drop_last() =~= views(renders@).take(i as int));
                assert(views(renders@).take(i + 1).last() == x@);
                assert(sort_renders(views(renders@).take(i + 1)) == insert_sorted(
                    x@,
                    sort_renders(views(renders@).take(i as int)),
                ));
            }
            i = i + 1;
        }
        proof {
            assert(views(renders@).take(m as int) =~= views(renders@));
        }
        let mut out = String::new();
        i = 0;
        proof {
            reveal_strlit(" ");
            assert(views(sorted@).take(0) =~= Seq::<Seq<char>>::empty());
            assert(out@ =~= join_spaced(views(sorted@).take(0)));
        }
        let k = sorted.len();
        while i < k
            invariant
                0 <= i <= k,
                k == sorted@.len(),
                out@ == join_spaced(views(sorted@).take(i as int)),
            decreases k - i,
        {
            proof {
                reveal_strlit(" ");
                lemma_join_spaced_push(views(sorted@).take(i as int), views(sorted@)[i as int]);
                assert(views(sorted@).take(i + 1) =~= views(sorted@).take(i as int).push(
                    views(sorted@)[i as int],
                ));
            }
            if i > 0 {
                out.append(" ");
            }
            out.append(sorted[i].as_str());
            proof {
                assert(" "@ =~= seq![' ']);
                assert(out@ =~= join_spaced(views(sorted@).take(i + 1)));
            }
            i = i + 1;
        }
        proof {
            assert(views(sorted@).take(k as int) =~= views(sorted@));
        }
        out
    }

    /// The connection string the environment-resolved defaults denote: the
    /// eight standard keys, with the SSL mode taken from `sslmode`.
    pub fn new(defaults: &DsnDefaults) -> (res: Dsn)
        ensures
            res.wf(),
            res.as_map() == defaults_map(*defaults),
            res.ssl_mode@ == defaults.sslmode@,
    {
        let mut d = Dsn { kv: Vec::new(), ssl_mode: String::new() };
        proof {
            assert(d.as_map() =~= Map::<Seq<char>, Seq<char>>::empty());
            reveal_strlit("user");
            reveal_strlit("dbname");
            reveal_strlit("host");
            reveal_strlit("sslmode");
            reveal_strlit("sslcert");
            reveal_strlit("sslkey");
            reveal_strlit("sslrootcert");
            reveal_strlit("sslcrl");
            assert("user"@.len() == 4 && "dbname"@.len() == 6 && "host"@.len() == 4);
            assert("sslmode"@.len() == 7 && "sslcert"@.len() == 7);
            assert("sslkey"@.len() == 6 && "sslrootcert"@.len() == 11 && "sslcrl"@.len() == 6);
            assert("sslcert"@[3] == 'c' && "sslmode"@[3] == 'm');
            assert("sslcert"@ != "sslmode"@);
        }
        d.set_value("user", defaults.user.as_str());
        d.set_value("dbname", defaults.dbname.as_str());
        d.set_value("host", defaults.host.as_str());
        d.set_value("sslmode", defaults.sslmode.as_str());
        d.set_value("sslcert", defaults.sslcert.as_str());
        d.set_value("sslkey", defaults.sslkey.as_str());
        d.set_value("sslrootcert", defaults.sslrootcert.as_str());
        d.set_value("sslcrl", defaults.sslcrl.as_str());
        d
    }

    /// Parses a space-separated list of `key=value` settings on top of the
    /// defaults; a piece without `=` is ignored, and the first `=` of a
    /// piece splits it.
    pub fn from_string(from: &str, defaults: &DsnDefaults) -> (res: Dsn)
        ensures
            res.wf(),
            res.as_map() == fold_tokens(
                defaults_map(*defaults),
                defaults.sslmode@,
                split_at_char(from@, ' '),
            ).0,
            res.ssl_mode@ == fold_tokens(
                defaults_map(*defaults),
                defaults.sslmode@,
                split_at_char(from@, ' '),
            ).1,
    {
        let mut d = Dsn::new(defaults);
        let tokens = split_char(from, ' ');
        let ghost ts = split_at_char(from@, ' ');
        let n = tokens.len();
        let mut i: usize = 0;
        proof {
            assert(ts.skip(0) =~= ts);
        }
        while i < n
            invariant
                0 <= i <= n,
                n == tokens@.len(),
                views(tokens@) == ts,
                d.wf(),
                fold_tokens(d.as_map(), d.ssl_mode@, ts.skip(i as int)) == fold_tokens(
                    defaults_map(*defaults),
                    defaults.sslmode@,
                    ts,
                ),
            decreases n - i,
        {
            let t = &tokens[i];
            let tn = t.as_str().unicode_len();
            let mut j: usize = 0;
            while j < tn && t.as_str().get_char(j) != '='
                invariant
                    0 <= j <= tn,
                    tn == t@.len(),
                    forall|k: int| 0 <= k < j ==> t@[k] != '=',
                decreases tn - j,
            {
                j = j + 1;
            }
            proof {
                lemma_find_from_is(t@, '=', 0, j as int);
                assert(ts.skip(i as int)[0] == ts[i as int]);
                assert(ts[i as int] == t@);
                assert(ts.skip(i as int).drop_first() =~= ts.skip(i + 1));
            }
            if j < tn {
                let key = t.as_str().substring_char(0, j);
                let value = t.as_str().substring_char(j + 1, tn);
                proof {
                    assert(key@ =~= t@.take(j as int));
                    assert(value@ =~= t@.skip(j + 1));
                }
                d.set_value(key, value);
            }
            i = i + 1;
        }
        proof {
            assert(ts.skip(n as int) =~= Seq::<Seq<char>>::empty());
        }
        d
    }
}

/// What [`Dsn::cleanse`] leaves of a key-to-value map: the five TLS-related
/// keys removed.
pub open spec fn cleansed_map(m: Map<Seq<char>, Seq<char>>) -> Map<Seq<char>, Seq<char>> {
    m.remove("sslmode"@).remove("sslcert"@).remove("sslkey"@).remove("sslrootcert"@).remove(
        "sslcrl"@,
    )
}

/// The key-to-value map the eight defaults denote.
pub open spec fn defaults_map(d: DsnDefaults) -> Map<Seq<char>, Seq<char>> {
    Map::<Seq<char>, Seq<char>>::empty().insert("user"@, d.user@).insert("dbname"@, d.dbname@)
        .insert("host"@, d.host@).insert("sslmode"@, d.sslmode@).insert("sslcert"@, d.sslcert@)
        .insert("sslkey"@, d.sslkey@).insert("sslrootcert"@, d.sslrootcert@).insert(
        "sslcrl"@,
        d.sslcrl@,
    )
}

/// How a list of `key=value` pieces lands in a key-to-value map: each piece
/// with an `=` stores what follows its first `=` under what precedes it (and
/// `sslmode` also sets the SSL mode); a piece without `=` is skipped.
pub open spec fn fold_tokens(
    m: Map<Seq<char>, Seq<char>>,
    ssl: Seq<char>,
    ts: Seq<Seq<char>>,
) -> (Map<Seq<char>, Seq<char>>, Seq<char>)
    decreases ts.len(),
{
    if ts.len() == 0 {
        (m, ssl)
    } else {
        let t = ts[0];
        let e = find_from(t, '=', 0);
        if e < t.len() {
            let key = t.take(e);
            let value = t.skip(e + 1);
            fold_tokens(
                m.insert(key, value),
                if key == "sslmode"@ {
                    value
                } else {
                    ssl
                },
                ts.drop_first(),
            )
        } else {
            fold_tokens(m, ssl, ts.drop_first())
        }
    }
}

/// The textual rendering of one pair, `key=value`.
pub open spec fn render_pair(p: (String, String)) -> Seq<char> {
    p.0@ + seq!['='] + p.1@
}

/// Every pair rendered, in pair order.
pub open spec fn renders_of(s: Seq<(String, String)>) -> Seq<Seq<char>> {
    s.map_values(|p: (String, String)| render_pair(p))
}

/// Where a string lands in an ascending list: before the first entry not
/// below it.
pub open spec fn insert_sorted(x: Seq<char>, s: Seq<Seq<char>>) -> Seq<Seq<char>>
    decreases s.len(),
{
    if s.len() == 0 {
        seq![x]
    } else if seq_lt(s[0], x) {
        seq![s[0]] + insert_sorted(x, s.drop_first())
    } else {
        seq![x] + s
    }
}

/// The list sorted ascending by insertion.
pub open spec fn sort_renders(s: Seq<Seq<char>>) -> Seq<Seq<char>>
    decreases s.len(),
{
    if s.len() == 0 {
        Seq::empty()
    } else {
        insert_sorted(s.last(), sort_renders(s.drop_last()))
    }
}

/// The pieces joined with single spaces.
pub open spec fn join_spaced(ts: Seq<Seq<char>>) -> Seq<char>
    decreases ts.len(),
{
    if ts.len() == 0 {
        Seq::empty()
    } else if ts.len() == 1 {
        ts[0]
    } else {
        ts[0] + seq![' '] + join_spaced(ts.drop_first())
    }
}

/// The canonical text of a list of pairs: rendered, sorted, space-joined.
pub open spec fn render_spec(s: Seq<(String, String)>) -> Seq<char> {
    join_spaced(sort_renders(renders_of(s)))
}

proof fn lemma_insert_sorted_at(s: Seq<Seq<char>>, x: Seq<char>, p: int)
    requires
        0 <= p <= s.len(),
        forall|j: int| 0 <= j < p ==> seq_lt(#[trigger] s[j], x),
        p < s.len() ==> !seq_lt(s[p], x),
    ensures
        insert_sorted(x, s) == s.insert(p, x),
    decreases s.len(),
{
    if s.len() == 0 {
        assert(insert_sorted(x, s) =~= s.insert(0, x));
    } else if p == 0 {
        assert(insert_sorted(x, s) =~= s.insert(0, x));
    } else {
        assert(seq_lt(s[0], x));
        let rest = s.drop_first();
        assert(forall|j: int| 0 <= j < p - 1 ==> seq_lt(#[trigger] rest[j], x));
        lemma_insert_sorted_at(rest, x, p - 1);
        assert(insert_sorted(x, s) =~= s.insert(p, x));
    }
}

proof fn lemma_join_spaced_push(ts: Seq<Seq<char>>, x: Seq<char>)
    ensures
        join_spaced(ts.push(x)) == if ts.len() == 0 {
            x
        } else {
            join_spaced(ts) + seq![' '] + x
        },
    decreases ts.len(),
{
    let tsx = ts.push(x);
    if ts.len() == 0 {
        assert(tsx.len() == 1);
        assert(tsx[0] == x);
    } else if ts.len() == 1 {
        assert(tsx.drop_first() =~= ts.drop_first().push(x));
        assert(tsx.drop_first() =~= seq![x]);
        assert(join_spaced(tsx) == tsx[0] + seq![' '] + join_spaced(tsx.drop_first()));
        assert(join_spaced(tsx.drop_first()) == x);
        assert(join_spaced(ts) == ts[0]);
        assert(tsx[0] == ts[0]);
    } else {
        assert(tsx.drop_first() =~= ts.drop_first().push(x));
        lemma_join_spaced_push(ts.drop_first(), x);
        assert(join_spaced(tsx) == tsx[0] + seq![' '] + join_spaced(ts.drop_first().push(x)));
        assert(join_spaced(ts) == ts[0] + seq![' '] + join_spaced(ts.drop_first()));
        assert(tsx[0] == ts[0]);
        assert(join_spaced(tsx) =~= join_spaced(ts) + seq![' '] + x);
    }
}

} // verus!
