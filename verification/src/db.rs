//! The prefix database: parse a newline-delimited text of tab-separated
//! records into a table sorted by prefix address, and answer
//! longest-prefix-match queries by binary search with a backward scan.

use vstd::prelude::*;
use vstd::string::StrSliceExecFns;
use vstd::seq_lib::lemma_multiset_commutative;
use vstd::multiset::Multiset;
use crate::meta::{OuiMeta, MetaView};
use crate::oui::{Oui, ParseOuiError, OuiParseSpec, oui_parse_spec, oui_err_matches, mask_of};
use crate::text::{trim_ws, trim_hash, split_char, trim_space, trim_hashes, split_str};
use crate::mac::mac_octets;

verus! {

/// Errors from database construction. All abort the build; no partial
/// database is ever returned.
#[derive(Debug, Clone, PartialEq, Eq)]
pub enum ParseOuiDbError {
    /// A record's prefix failed to parse: line number, the prefix error, the
    /// trimmed line text.
    OuiParsing(usize, ParseOuiError, String),
    /// A record with fewer than 2 or more than 4 non-empty fields: line
    /// number, observed count, trimmed line text.
    BadFieldCount(usize, usize, String),
    /// Two records share an identical (address, length) pair.
    DuplicatedEntries,
}

/// The fields of one trimmed record line: split on tabs, each field trimmed,
/// empty fields discarded.
pub open spec fn nonempty_trimmed(fs: Seq<Seq<char>>) -> Seq<Seq<char>>
    decreases fs.len(),
{
    if fs.len() == 0 {
        Seq::empty()
    } else {
        nonempty_trimmed(fs.drop_last()) + (if trim_ws(fs.last()).len() > 0 {
            seq![trim_ws(fs.last())]
        } else {
            Seq::<Seq<char>>::empty()
        })
    }
}

pub open spec fn line_fields(t: Seq<char>) -> Seq<Seq<char>> {
    nonempty_trimmed(split_char(t, '\t'))
}

/// What one raw line contributes: nothing (blank or comment), an entry, or
/// the first error.
pub enum LineSpec {
    Skip,
    Bad(int),
    Entry(Oui, MetaView),
    PrefErr(OuiParseSpec),
}

pub open spec fn line_spec(line: Seq<char>) -> LineSpec {
    let t = trim_ws(line);
    if t.len() == 0 || t[0] == '#' {
        LineSpec::Skip
    } else {
        let fs = line_fields(t);
        if !(2 <= fs.len() && fs.len() <= 4) {
            LineSpec::Bad(fs.len() as int)
        } else {
            match oui_parse_spec(fs[0]) {
                OuiParseSpec::Value(o) => LineSpec::Entry(
                    o,
                    MetaView {
                        short: fs[1],
                        long: if fs.len() > 2 {
                            Some(fs[2])
                        } else {
                            None
                        },
                        comment: if fs.len() > 3 {
                            Some(trim_ws(trim_hash(fs[3])))
                        } else {
                            None
                        },
                    },
                ),
                e => LineSpec::PrefErr(e),
            }
        }
    }
}

/// Parse one raw line into nothing, an entry, or an error.
fn line_entry(line: &str, lnum: usize) -> (r: Result<
    Option<(Oui, OuiMeta<String>)>,
    ParseOuiDbError,
>)
    ensures
        match line_spec(line@) {
            LineSpec::Skip => r == Ok::<Option<(Oui, OuiMeta<String>)>, ParseOuiDbError>(None),
            LineSpec::Entry(o, m) => (r matches Ok(Some(e)) && e.0 == o && e.0.wf() && 24
                <= e.0.length <= 48 && e.1@ == m),
            LineSpec::Bad(nf) => (r matches Err(ParseOuiDbError::BadFieldCount(ln, n2, t)) && ln
                == lnum && n2 == nf && t@ == trim_ws(line@)),
            LineSpec::PrefErr(e) => (r matches Err(ParseOuiDbError::OuiParsing(ln, e2, t)) && ln
                == lnum && oui_err_matches(e, e2, line_fields(trim_ws(line@))[0]) && t@ == trim_ws(
                line@,
            )),
        },
{
    let t = trim_space(line);
    let tn = t.unicode_len();
    if tn == 0 || t.get_char(0) == '#' {
        return Ok(None);
    }
    let raw_fields = split_str(t, '\t');
    let ghost raws = split_char(t@, '\t');
    let mut fields: Vec<&str> = Vec::new();
    let mut i: usize = 0;
    proof {
        assert(raws.subrange(0, 0) =~= Seq::<Seq<char>>::empty());
        assert(fields@.map_values(|f: &str| f@) =~= nonempty_trimmed(raws.subrange(0, 0)));
    }
    while i < raw_fields.len()
        invariant
            0 <= i <= raw_fields.len(),
            raws == raw_fields@.map_values(|f: &str| f@),
            fields@.map_values(|f: &str| f@) == nonempty_trimmed(raws.subrange(0, i as int)),
        decreases raw_fields.len() - i,
    {
        let f = trim_space(raw_fields[i]);
        proof {
            let sub = raws.subrange(0, i + 1);
            assert(sub.drop_last() =~= raws.subrange(0, i as int));
            assert(sub.last() == raws[i as int]);
            assert(raws[i as int] == raw_fields@[i as int]@);
        }
        if f.unicode_len() > 0 {
            proof {
                assert(fields@.push(f).map_values(|g: &str| g@) =~= fields@.map_values(
                    |g: &str| g@,
                ) + seq![f@]);
                assert(nonempty_trimmed(raws.subrange(0, i + 1)) =~= nonempty_trimmed(
                    raws.subrange(0, i as int),
                ) + seq![trim_ws(raws[i as int])]);
            }
            fields.push(f);
        } else {
            proof {
                assert(nonempty_trimmed(raws.subrange(0, i + 1)) =~= nonempty_trimmed(
                    raws.subrange(0, i as int),
                ));
            }
        }
        i = i + 1;
    }
    proof {
        assert(raws.subrange(0, raw_fields@.len() as int) =~= raws);
    }
    let nf = fields.len();
    if nf < 2 || nf > 4 {
        return Err(ParseOuiDbError::BadFieldCount(lnum, nf, t.to_owned()));
    }
    proof {
        assert(fields@.map_values(|f: &str| f@)[0] == fields@[0]@);
        assert(fields@.map_values(|f: &str| f@)[1] == fields@[1]@);
    }
    let o = match Oui::from_str(fields[0]) {
        Err(e) => {
            return Err(ParseOuiDbError::OuiParsing(lnum, e, t.to_owned()));
        },
        Ok(o) => o,
    };
    let short = fields[1].to_owned();
    let long = if nf > 2 {
        proof {
            assert(fields@.map_values(|f: &str| f@)[2] == fields@[2]@);
        }
        Some(fields[2].to_owned())
    } else {
        None
    };
    let comment = if nf > 3 {
        proof {
            assert(fields@.map_values(|f: &str| f@)[3] == fields@[3]@);
        }
        Some(trim_space(trim_hashes(fields[3])).to_owned())
    } else {
        None
    };
    let m = OuiMeta { short, long, comment };
    proof {
        assert(m@ =~= line_spec(line@)->Entry_1);
    }
    Ok(Some((o, m)))
}

/// A database build error at the spec level.
pub enum DbErrSpec {
    Pref(int, OuiParseSpec, Seq<char>),
    Bad(int, int, Seq<char>),
}

/// The entries of the remaining lines in order, or the first error, with
/// `lnum` the zero-based number of the first remaining line.
pub open spec fn entries_of_lines(lines: Seq<Seq<char>>, lnum: int) -> Result<
    Seq<(Oui, MetaView)>,
    DbErrSpec,
>
    decreases lines.len(),
{
    if lines.len() == 0 {
        Ok(Seq::empty())
    } else {
        let rest = entries_of_lines(lines.subrange(1, lines.len() as int), lnum + 1);
        match line_spec(lines[0]) {
            LineSpec::Skip => rest,
            LineSpec::Bad(nf) => Err(DbErrSpec::Bad(lnum, nf, trim_ws(lines[0]))),
            LineSpec::PrefErr(e) => Err(DbErrSpec::Pref(lnum, e, trim_ws(lines[0]))),
            LineSpec::Entry(o, m) => match rest {
                Err(e2) => Err(e2),
                Ok(es) => Ok(seq![(o, m)] + es),
            },
        }
    }
}

/// Prefix already-collected entries onto a remaining-lines outcome.
pub open spec fn prepend_entries(
    a: Seq<(Oui, MetaView)>,
    r: Result<Seq<(Oui, MetaView)>, DbErrSpec>,
) -> Result<Seq<(Oui, MetaView)>, DbErrSpec> {
    match r {
        Ok(es) => Ok(a + es),
        Err(e) => Err(e),
    }
}

/// Peeling one line off the front commutes with collecting entries.
pub proof fn lemma_entries_step(lines: Seq<Seq<char>>, lnum: int)
    requires
        lines.len() > 0,
    ensures
        entries_of_lines(lines, lnum) == match line_spec(lines[0]) {
            LineSpec::Skip => entries_of_lines(lines.subrange(1, lines.len() as int), lnum + 1),
            LineSpec::Bad(nf) => Err(DbErrSpec::Bad(lnum, nf, trim_ws(lines[0]))),
            LineSpec::PrefErr(e) => Err(DbErrSpec::Pref(lnum, e, trim_ws(lines[0]))),
            LineSpec::Entry(o, m) => prepend_entries(
                seq![(o, m)],
                entries_of_lines(lines.subrange(1, lines.len() as int), lnum + 1),
            ),
        },
{
}

/// The strict order of the table: by address, then by length.
pub open spec fn key_lt(a: Oui, b: Oui) -> bool {
    a.address < b.address || (a.address == b.address && a.length < b.length)
}

pub open spec fn key_le(a: Oui, b: Oui) -> bool {
    key_lt(a, b) || (a.address == b.address && a.length == b.length)
}

pub open spec fn sorted_le<T>(s: Seq<(Oui, T)>) -> bool {
    forall|i: int, j: int| 0 <= i < j < s.len() ==> key_le(#[trigger] s[i].0, #[trigger] s[j].0)
}

pub open spec fn sorted_lt<T>(s: Seq<(Oui, T)>) -> bool {
    forall|i: int, j: int| 0 <= i < j < s.len() ==> key_lt(#[trigger] s[i].0, #[trigger] s[j].0)
}

/// Two entries somewhere in the sequence share an (address, length) pair.
pub open spec fn has_dup_key(s: Seq<(Oui, MetaView)>) -> bool {
    exists|i: int, j: int| 0 <= i < j < s.len() && s[i].0 == s[j].0
}

/// Every entry is well formed with a length in the range records may carry.
pub open spec fn entries_wf<T>(s: Seq<(Oui, T)>) -> bool {
    forall|i: int| 0 <= i < s.len() ==> ((#[trigger] s[i].0).wf() && 24 <= s[i].0.length <= 48)
}

/// Stable insertion sort by entry key, in place.
fn sort_by_key(v: &mut Vec<(Oui, OuiMeta<String>)>)
    ensures
        final(v)@.len() == old(v)@.len(),
        final(v)@.to_multiset() == old(v)@.to_multiset(),
        sorted_le(final(v)@),
{
    broadcast use vstd::seq_lib::group_to_multiset_ensures;

    let n = v.len();
    if n == 0 {
        return ;
    }
    let mut i: usize = 1;
    while i < n
        invariant
            1 <= i <= n,
            n == v@.len(),
            v@.to_multiset() == old(v)@.to_multiset(),
            forall|k: int, l: int| 0 <= k < l < i ==> key_le(#[trigger] v@[k].0, #[trigger] v@[l].0),
        decreases n - i,
    {
        broadcast use vstd::seq_lib::group_to_multiset_ensures;

        let key = v[i].0;
        let mut j: usize = i;
        while j > 0 && (v[j - 1].0.address > key.address || (v[j - 1].0.address == key.address
            && v[j - 1].0.length > key.length))
            invariant
                0 <= j <= i < n,
                n == v@.len(),
                v@[i as int].0 == key,
                forall|k: int| j <= k < i ==> key_lt(key, #[trigger] v@[k].0),
            decreases j,
        {
            j = j - 1;
        }
        let ghost before = v@;
        let e = v.remove(i);
        let ghost mid = v@;
        v.insert(j, e);
        proof {
            assert(mid =~= before.remove(i as int));
            assert(v@ =~= mid.insert(j as int, e));
            // multiset preservation: remove then insert the same element
            assert(mid.to_multiset() == before.to_multiset().remove(e));
            assert(v@ =~= mid.subrange(0, j as int) + seq![e] + mid.subrange(
                j as int,
                mid.len() as int,
            ));
            lemma_multiset_commutative(mid.subrange(0, j as int) + seq![e], mid.subrange(
                j as int,
                mid.len() as int,
            ));
            lemma_multiset_commutative(mid.subrange(0, j as int), seq![e]);
            assert(seq![e].to_multiset() =~= Multiset::<(Oui, OuiMeta<String>)>::empty().insert(
                e,
            )) by {
                assert(seq![e] =~= Seq::<(Oui, OuiMeta<String>)>::empty().push(e));
            }
            assert(mid =~= mid.subrange(0, j as int) + mid.subrange(j as int, mid.len() as int));
            lemma_multiset_commutative(mid.subrange(0, j as int), mid.subrange(
                j as int,
                mid.len() as int,
            ));
            assert(v@.to_multiset() =~= mid.to_multiset().insert(e));
            assert(before.to_multiset().count(e) > 0);
            assert(v@.to_multiset() =~= before.to_multiset());
            // order: new[k] = before[k] for k < j, e at j, before[k-1] for j < k <= i
            assert(forall|k: int| 0 <= k < j ==> v@[k] == before[k]);
            assert(v@[j as int] == e);
            assert(forall|k: int| j < k <= i ==> v@[k] == before[k - 1]);
            assert(forall|k: int| i < k < n ==> v@[k] == before[k]);
            assert(forall|k: int| j <= k < i ==> key_lt(e.0, #[trigger] before[k].0));
            assert(j > 0 ==> key_le(before[j - 1].0, e.0));
            assert(forall|k: int, l: int|
                0 <= k < l < i + 1 ==> key_le(#[trigger] v@[k].0, #[trigger] v@[l].0));
        }
        i = i + 1;
    }
}

/// The model of an owned entry sequence: each record by its texts.
pub open spec fn entries_view(s: Seq<(Oui, OuiMeta<String>)>) -> Seq<(Oui, MetaView)> {
    s.map_values(|e: (Oui, OuiMeta<String>)| (e.0, e.1@))
}

/// Multiset-equal entry sequences have multiset-equal models.
pub proof fn lemma_view_multiset(s1: Seq<(Oui, OuiMeta<String>)>, s2: Seq<(Oui, OuiMeta<String>)>)
    requires
        s1.to_multiset() == s2.to_multiset(),
    ensures
        entries_view(s1).to_multiset() == entries_view(s2).to_multiset(),
    decreases s1.len(),
{
    broadcast use vstd::seq_lib::group_to_multiset_ensures;

    if s1.len() == 0 {
        assert(s1.to_multiset().len() == 0);
        assert(s2.len() == 0);
        assert(entries_view(s1) =~= entries_view(s2));
    } else {
        let e = s1.last();
        assert(s1.contains(e));
        assert(s2.to_multiset().count(e) > 0);
        assert(s2.contains(e));
        let j = choose|j: int| 0 <= j < s2.len() && s2[j] == e;
        let s1p = s1.drop_last();
        let s2p = s2.remove(j);
        assert(s1 =~= s1p.push(e));
        assert(s1.to_multiset() =~= s1p.to_multiset().insert(e));
        assert(s1p.to_multiset() =~= s1.to_multiset().remove(e));
        assert(s2p.to_multiset() =~= s2.to_multiset().remove(e));
        lemma_view_multiset(s1p, s2p);
        let x = (e.0, e.1@);
        assert(entries_view(s1) =~= entries_view(s1p).push(x));
        assert(entries_view(s2p) =~= entries_view(s2).remove(j));
        assert(entries_view(s2)[j] == x);
        assert(entries_view(s2).remove(j).to_multiset() =~= entries_view(s2).to_multiset().remove(
            x,
        ));
        assert(entries_view(s1).to_multiset() =~= entries_view(s1p).to_multiset().insert(x));
        assert(entries_view(s2).contains(x));
        assert(entries_view(s2).to_multiset().count(x) > 0);
        assert(entries_view(s1).to_multiset() =~= entries_view(s2).to_multiset());
    }
}

/// A duplicate key carries over to any multiset-equal sequence.
pub proof fn lemma_dup_transfer(s1: Seq<(Oui, MetaView)>, s2: Seq<(Oui, MetaView)>)
    requires
        s1.to_multiset() == s2.to_multiset(),
        has_dup_key(s1),
    ensures
        has_dup_key(s2),
{
    broadcast use vstd::seq_lib::group_to_multiset_ensures;

    let (i, j) = choose|i: int, j: int| 0 <= i < j < s1.len() && s1[i].0 == s1[j].0;
    let x = s1[i];
    let y = s1[j];
    assert(s1.contains(x));
    assert(s1.contains(y));
    if x == y {
        // x occurs twice in s1, hence twice in s2
        let s1p = s1.remove(j);
        assert(s1p.to_multiset() =~= s1.to_multiset().remove(y));
        assert(s1p[i] == x);
        assert(s1p.contains(x));
        assert(s1p.to_multiset().count(x) > 0);
        assert(s1.to_multiset().count(x) >= 2);
        assert(s2.to_multiset().count(x) >= 2);
        assert(s2.contains(x));
        let ix = choose|ix: int| 0 <= ix < s2.len() && s2[ix] == x;
        let s2p = s2.remove(ix);
        assert(s2p.to_multiset() =~= s2.to_multiset().remove(x));
        assert(s2p.to_multiset().count(x) >= 1);
        assert(s2p.contains(x));
        let iz = choose|iz: int| 0 <= iz < s2p.len() && s2p[iz] == x;
        let iw = if iz < ix {
            iz
        } else {
            iz + 1
        };
        assert(s2[iw] == x);
        assert(iw != ix);
        if iw < ix {
            assert(0 <= iw < ix < s2.len() && s2[iw].0 == s2[ix].0);
        } else {
            assert(0 <= ix < iw < s2.len() && s2[ix].0 == s2[iw].0);
        }
    } else {
        assert(s2.to_multiset().count(x) > 0);
        assert(s2.to_multiset().count(y) > 0);
        assert(s2.contains(x));
        assert(s2.contains(y));
        let ix = choose|ix: int| 0 <= ix < s2.len() && s2[ix] == x;
        let iy = choose|iy: int| 0 <= iy < s2.len() && s2[iy] == y;
        assert(ix != iy);
        if ix < iy {
            assert(0 <= ix < iy < s2.len() && s2[ix].0 == s2[iy].0);
        } else {
            assert(0 <= iy < ix < s2.len() && s2[iy].0 == s2[ix].0);
        }
    }
}

/// Pairwise strict order follows from adjacent strict order.
pub proof fn lemma_key_chain<T>(s: Seq<(Oui, T)>, i: int, j: int)
    requires
        forall|k: int| 0 <= k < s.len() - 1 ==> key_lt(#[trigger] s[k].0, s[k + 1].0),
        0 <= i < j < s.len(),
    ensures
        key_lt(s[i].0, s[j].0),
    decreases j - i,
{
    if j > i + 1 {
        lemma_key_chain(s, i, j - 1);
    }
}

/// Which error value a failed database build must carry.
pub open spec fn db_err_matches(e: DbErrSpec, err: ParseOuiDbError) -> bool {
    match e {
        DbErrSpec::Bad(ln, nf, t) => err matches ParseOuiDbError::BadFieldCount(l2, n2, t2) && l2
            == ln && n2 == nf && t2@ == t,
        DbErrSpec::Pref(ln, pe, t) => err matches ParseOuiDbError::OuiParsing(l2, e2, t2) && l2
            == ln && t2@ == t && oui_err_matches(pe, e2, line_fields(t)[0]),
    }
}

/// The entries the whole text describes, in line order, or its first error.
pub open spec fn db_entries_spec(txt: Seq<char>) -> Result<Seq<(Oui, MetaView)>, DbErrSpec> {
    entries_of_lines(split_char(txt, '\n'), 0)
}

/// In-memory OUI prefix database: a table of (prefix, metadata) pairs sorted
/// strictly by (address, length), built once from text and then immutable.
#[derive(Debug, Clone)]
pub struct OuiDb(pub Vec<(Oui, OuiMeta<String>)>);

impl View for OuiDb {
    type V = Seq<(Oui, MetaView)>;

    open spec fn view(&self) -> Seq<(Oui, MetaView)> {
        entries_view(self.0@)
    }
}

impl OuiDb {
    /// A bundled excerpt of registered OUI records, one record per line:
    /// `PREFIX\tSHORT[\tLONG[\tCOMMENT]]`. The full reference dataset is
    /// published by Wireshark; callers may hand `parse_from_string` any text
    /// in the same format.
    pub const EMBEDDED_DB_TEXT: &'static str = "# Registered address blocks, tab-separated: prefix, short name, long name, comment.\n00:00:00\t00:00:00\tOfficially Xerox, but 0:0:0:0:0:0 is more common\n00:00:17\tOracle\n08:00:87\tXyplexTe\tXyplex\t# terminal servers\n2C:23:3A\tHewlettP\tHewlett Packard\n2C:27:9E\tIEEERegi\tIEEE Registration Authority\n2C:27:9E:10:00:00/28\tPicoComm\tPico Communications\n8C:1F:64\tIEEERegi\tIEEE Registration Authority\n8C:1F:64:CB:20:00/36\tDyncirSo\tDyncir Solu\u{e7}\u{f5}es Tecnol\u{f3}gicas Ltda\n8C:47:6E\tIEEERegi\tIEEE Registration Authority\n8C:47:6E:30:00:00/28\tShanghai\tShanghai Satellite Communication Technology Co.,Ltd\nB0:C5:59\tSamsungE\tSamsung Electronics Co.,Ltd\nB0:C5:CA\tIEEERegi\tIEEE Registration Authority\n";

    /// The database invariant: entries strictly sorted by key, each well formed.
    pub open spec fn wf(self) -> bool {
        sorted_lt(self@) && entries_wf(self@)
    }

    /// Parse a database text: newline-separated records, each
    /// `PREFIX\tSHORT[\tLONG[\tCOMMENT]]`; blank lines and `#` comment lines
    /// are skipped. The result is sorted by prefix and free of duplicates, and
    /// holds exactly the entries the text describes; otherwise the first
    /// error is returned and no database is built.
    pub fn parse_from_string(txt: &str) -> (r: Result<OuiDb, ParseOuiDbError>)
        ensures
            match db_entries_spec(txt@) {
                Err(e) => (r matches Err(err) && db_err_matches(e, err)),
                Ok(es) => {
                    if has_dup_key(es) {
                        r == Err::<OuiDb, ParseOuiDbError>(ParseOuiDbError::DuplicatedEntries)
                    } else {
                        r matches Ok(db) && db.wf() && db@.len() == es.len()
                            && db@.to_multiset() == es.to_multiset()
                    }
                },
            },
    {
        broadcast use vstd::seq_lib::group_to_multiset_ensures;

        let lines = split_str(txt, '\n');
        let ghost lv = split_char(txt@, '\n');
        let nl = lines.len();
        let mut v: Vec<(Oui, OuiMeta<String>)> = Vec::new();
        let mut k: usize = 0;
        proof {
            assert(entries_view(v@) =~= Seq::<(Oui, MetaView)>::empty());
            assert(lv.subrange(0, lv.len() as int) =~= lv);
            assert(entries_of_lines(lv, 0) == prepend_entries(
                entries_view(v@),
                entries_of_lines(lv.subrange(0, lv.len() as int), 0),
            )) by {
                match entries_of_lines(lv.subrange(0, lv.len() as int), 0) {
                    Ok(es) => {
                        assert(entries_view(v@) + es =~= es);
                    },
                    Err(_) => {},
                }
            }
        }
        while k < nl
            invariant
                0 <= k <= nl,
                nl == lv.len(),
                lv == split_char(txt@, '\n'),
                lv == lines@.map_values(|f: &str| f@),
                nl == lines@.len(),
                entries_wf(v@),
                entries_of_lines(lv, 0) == prepend_entries(
                    entries_view(v@),
                    entries_of_lines(lv.subrange(k as int, lv.len() as int), k as int),
                ),
            decreases nl - k,
        {
            let ghost rest = lv.subrange(k as int, lv.len() as int);
            proof {
                assert(rest[0] == lv[k as int]);
                assert(lv[k as int] == lines@[k as int]@);
                assert(rest.subrange(1, rest.len() as int) =~= lv.subrange(
                    k + 1,
                    lv.len() as int,
                ));
                lemma_entries_step(rest, k as int);
            }
            match line_entry(lines[k], k) {
                Err(err) => {
                    proof {
                        assert(db_entries_spec(txt@) is Err);
                    }
                    return Err(err);
                },
                Ok(None) => {},
                Ok(Some(e)) => {
                    proof {
                        let x = (e.0, e.1@);
                        assert(entries_view(v@.push(e)) =~= entries_view(v@) + seq![x]);
                        match entries_of_lines(lv.subrange(k + 1, lv.len() as int), k + 1) {
                            Ok(es) => {
                                assert(entries_view(v@) + (seq![x] + es) =~= (entries_view(v@)
                                    + seq![x]) + es);
                            },
                            Err(_) => {},
                        }
                    }
                    v.push(e);
                },
            }
            k = k + 1;
        }
        proof {
            assert(lv.subrange(nl as int, lv.len() as int) =~= Seq::<Seq<char>>::empty());
            match db_entries_spec(txt@) {
                Ok(es) => {
                    assert(entries_view(v@) + Seq::<(Oui, MetaView)>::empty() =~= entries_view(
                        v@,
                    ));
                    assert(es == entries_view(v@));
                },
                Err(_) => {
                    assert(false);
                },
            }
        }
        let ghost es = entries_view(v@);
        let ghost parsed = v@;
        sort_by_key(&mut v);
        proof {
            lemma_view_multiset(v@, parsed);
            // well-formedness carries across the permutation
            assert forall|i: int| 0 <= i < v@.len() implies ((#[trigger] v@[i].0).wf() && 24
                <= v@[i].0.length <= 48) by {
                assert(v@.contains(v@[i]));
                assert(v@.to_multiset().count(v@[i]) > 0);
                assert(parsed.contains(v@[i]));
            }
        }
        // duplicate detection on the sorted table: equal keys must be adjacent
        let mut d: usize = 1;
        while d < v.len()
            invariant
                1 <= d <= v.len() || v.len() == 0,
                sorted_le(v@),
                v@.to_multiset() == parsed.to_multiset(),
                es == entries_view(parsed),
                db_entries_spec(txt@) == Ok::<Seq<(Oui, MetaView)>, DbErrSpec>(es),
                entries_wf(v@),
                forall|k2: int| 0 < k2 < d ==> key_lt(#[trigger] v@[k2 - 1].0, v@[k2].0),
            decreases v.len() - d,
        {
            if v[d - 1].0.address == v[d].0.address && v[d - 1].0.length == v[d].0.length {
                proof {
                    assert(v@[d - 1].0 == v@[d as int].0);
                    assert(entries_view(v@)[d - 1].0 == entries_view(v@)[d as int].0);
                    assert(has_dup_key(entries_view(v@)));
                    lemma_view_multiset(v@, parsed);
                    lemma_dup_transfer(entries_view(v@), es);
                }
                return Err(ParseOuiDbError::DuplicatedEntries);
            }
            proof {
                assert(key_le(v@[d - 1].0, v@[d as int].0));
                assert(key_lt(v@[d - 1].0, v@[d as int].0));
            }
            d = d + 1;
        }
        proof {
            assert forall|k2: int|
                0 <= k2 < v@.len() - 1 implies key_lt(#[trigger] v@[k2].0, v@[k2 + 1].0) by {
                assert(0 < k2 + 1 < d);
                assert(key_lt(v@[(k2 + 1) - 1].0, v@[k2 + 1].0));
            }
            assert forall|i: int, j: int| 0 <= i < j < v@.len() implies key_lt(
                #[trigger] v@[i].0,
                #[trigger] v@[j].0,
            ) by {
                lemma_key_chain(v@, i, j);
            }
            assert forall|i: int, j: int|
                0 <= i < j < entries_view(v@).len() implies key_lt(
                #[trigger] entries_view(v@)[i].0,
                #[trigger] entries_view(v@)[j].0,
            ) by {
                assert(entries_view(v@)[i].0 == v@[i].0);
                assert(entries_view(v@)[j].0 == v@[j].0);
            }
            // no duplicate keys anywhere: strict order forbids them
            if has_dup_key(es) {
                lemma_view_multiset(parsed, v@);
                lemma_dup_transfer(es, entries_view(v@));
                let (i, j) = choose|i: int, j: int|
                    0 <= i < j < entries_view(v@).len() && entries_view(v@)[i].0 == entries_view(
                        v@,
                    )[j].0;
                assert(key_lt(entries_view(v@)[i].0, entries_view(v@)[j].0));
                assert(false);
            }
            lemma_view_multiset(parsed, v@);
            assert(entries_view(v@).to_multiset().len() == entries_view(v@).len());
            assert(es.to_multiset().len() == es.len());
        }
        Ok(OuiDb(v))
    }

    /// Longest-prefix-match lookup: the matched prefix and its metadata.
    pub fn search_entry(&self, mac: eui48::MacAddress) -> (r: Option<(Oui, OuiMeta<&str>)>)
        requires
            self.wf(),
        ensures
            match spec_search(self@, mac_addr48(mac)) {
                Some(idx) => (r matches Some(e) && e.0 == self@[idx].0 && e.1@ == self@[idx].1),
                None => r is None,
            },
    {
        let target = Oui::from_addr(mac);
        let t = target.address;
        let ghost s = self@;
        let cnt = upper_bound(&self.0, t);
        proof {
            lemma_count_le_bounds(s, t);
        }
        if cnt == 0 {
            return None;
        }
        let mut i: usize = cnt - 1;
        let mut res: Option<usize> = None;
        let mut done: bool = false;
        while !done
            invariant
                s == self@,
                s == entries_view(self.0@),
                entries_wf(s),
                target == target48(t),
                target.wf(),
                cnt == count_le(s, t),
                0 < cnt <= s.len(),
                0 <= i < cnt,
                !done ==> res is None && scan_down(s, t, cnt - 1) == scan_down(s, t, i as int),
                done ==> scan_down(s, t, cnt - 1) == (match res {
                    Some(j) => Some(j as int),
                    None => None::<int>,
                }),
                done ==> (res matches Some(j) ==> 0 <= j < s.len()),
            decreases (if done {
                0int
            } else {
                i + 1
            }),
        {
            proof {
                assert(s[i as int].0 == self.0@[i as int].0);
            }
            let e_oui = self.0[i].0;
            if e_oui.contains(&target) {
                proof {
                    assert(scan_down(s, t, i as int) == Some(i as int));
                }
                res = Some(i);
                done = true;
            } else if e_oui.length <= 24 {
                proof {
                    assert(scan_down(s, t, i as int) is None);
                }
                res = None;
                done = true;
            } else if i == 0 {
                proof {
                    assert(scan_down(s, t, -1) is None);
                    assert(scan_down(s, t, 0) is None);
                }
                res = None;
                done = true;
            } else {
                proof {
                    assert(scan_down(s, t, i as int) == scan_down(s, t, i - 1));
                }
                i = i - 1;
            }
        }
        match res {
            None => None,
            Some(j) => {
                proof {
                    assert(s[j as int].1 == self.0@[j as int].1@);
                }
                let o = self.0[j].0;
                let m = self.0[j].1.as_ref();
                Some((o, m))
            },
        }
    }

    /// Longest-prefix-match lookup returning the metadata alone.
    pub fn search(&self, mac: eui48::MacAddress) -> (r: Option<OuiMeta<&str>>)
        requires
            self.wf(),
        ensures
            match spec_search(self@, mac_addr48(mac)) {
                Some(idx) => (r matches Some(m) && m@ == self@[idx].1),
                None => r is None,
            },
    {
        match self.search_entry(mac) {
            Some(e) => Some(e.1),
            None => None,
        }
    }

    /// Longest-prefix-match lookup returning the matched prefix alone.
    pub fn search_prefix(&self, mac: eui48::MacAddress) -> (r: Option<Oui>)
        requires
            self.wf(),
        ensures
            match spec_search(self@, mac_addr48(mac)) {
                Some(idx) => r == Some(self@[idx].0),
                None => r is None,
            },
    {
        match self.search_entry(mac) {
            Some(e) => Some(e.0),
            None => None,
        }
    }

    /// The whole table in ascending address order, each record borrowed.
    pub fn raw_prefixes(&self) -> (r: Vec<(Oui, OuiMeta<&str>)>)
        ensures
            r@.len() == self@.len(),
            forall|i: int|
                0 <= i < r@.len() ==> ((#[trigger] r@[i]).0 == self@[i].0 && r@[i].1@
                    == self@[i].1),
    {
        let mut r: Vec<(Oui, OuiMeta<&str>)> = Vec::new();
        let mut i: usize = 0;
        let n = self.0.len();
        while i < n
            invariant
                0 <= i <= n,
                n == self.0@.len(),
                r@.len() == i,
                forall|k: int|
                    0 <= k < i ==> ((#[trigger] r@[k]).0 == entries_view(self.0@)[k].0
                        && r@[k].1@ == entries_view(self.0@)[k].1),
            decreases n - i,
        {
            let o = self.0[i].0;
            let m = self.0[i].1.as_ref();
            r.push((o, m));
            i = i + 1;
        }
        r
    }
}

/// The target key: a MAC address as a full-length 48-bit prefix.
pub open spec fn target48(t: u64) -> Oui {
    Oui { address: t, length: 48 }
}

/// The 48-bit integer a MAC address encodes.
pub open spec fn mac_addr48(m: eui48::MacAddress) -> u64 {
    crate::oui::octets6_val(mac_octets(m)) as u64
}

/// Whether an entry's key orders at or before the target key `(t, 48)`.
pub open spec fn key_le_pair(a: Oui, t: u64) -> bool {
    a.address < t || (a.address == t && a.length <= 48)
}

/// How many entries order at or before the target key.
pub open spec fn count_le(s: Seq<(Oui, MetaView)>, t: u64) -> int
    decreases s.len(),
{
    if s.len() == 0 {
        0
    } else {
        count_le(s.drop_last(), t) + if key_le_pair(s.last().0, t) {
            1int
        } else {
            0int
        }
    }
}

/// The backward scan from index `i`: the first entry that contains the
/// target wins; a top-level (length 24 or less) miss, or the table's
/// bottom, ends the search empty.
pub open spec fn scan_down(s: Seq<(Oui, MetaView)>, t: u64, i: int) -> Option<int>
    decreases i + 1,
{
    if i < 0 || i >= s.len() {
        None
    } else if s[i].0.spec_contains(target48(t)) {
        Some(i)
    } else if s[i].0.length <= 24 {
        None
    } else {
        scan_down(s, t, i - 1)
    }
}

/// The whole query: binary search for the nearest key, then scan backward.
pub open spec fn spec_search(s: Seq<(Oui, MetaView)>, t: u64) -> Option<int> {
    scan_down(s, t, count_le(s, t) - 1)
}

/// In a strictly sorted table, `count_le` is the boundary index: entries
/// before it order at or before the target, entries after it do not.
pub proof fn lemma_count_le_bounds(s: Seq<(Oui, MetaView)>, t: u64)
    requires
        sorted_lt(s),
    ensures
        0 <= count_le(s, t) <= s.len(),
        forall|i: int| 0 <= i < s.len() ==> (i < count_le(s, t) <==> key_le_pair(s[i].0, t)),
    decreases s.len(),
{
    if s.len() > 0 {
        let p = s.drop_last();
        assert(forall|i: int| 0 <= i < p.len() ==> p[i] == s[i]);
        assert(forall|i: int, j: int|
            0 <= i < j < p.len() ==> key_lt(#[trigger] p[i].0, #[trigger] p[j].0));
        lemma_count_le_bounds(p, t);
        if key_le_pair(s.last().0, t) {
            assert forall|i: int| 0 <= i < p.len() implies key_le_pair(p[i].0, t) by {
                assert(key_lt(s[i].0, s[s.len() - 1].0));
            }
            assert(count_le(p, t) == p.len());
        }
        assert forall|i: int|
            0 <= i < s.len() implies (i < count_le(s, t) <==> key_le_pair(s[i].0, t)) by {
            if i < s.len() - 1 {
                assert(p[i] == s[i]);
                assert(i < count_le(p, t) <==> key_le_pair(p[i].0, t));
            }
        }
    }
}

/// Binary search for the number of entries ordering at or before `(t, 48)`.
fn upper_bound(v: &Vec<(Oui, OuiMeta<String>)>, t: u64) -> (r: usize)
    requires
        sorted_lt(entries_view(v@)),
    ensures
        r == count_le(entries_view(v@), t),
{
    let ghost s = entries_view(v@);
    let n = v.len();
    let mut lo: usize = 0;
    let mut hi: usize = n;
    while lo < hi
        invariant
            0 <= lo <= hi <= n,
            n == v@.len(),
            s == entries_view(v@),
            sorted_lt(s),
            forall|i: int| 0 <= i < lo ==> key_le_pair(#[trigger] s[i].0, t),
            forall|i: int| hi <= i < n ==> !key_le_pair(#[trigger] s[i].0, t),
        decreases hi - lo,
    {
        let mid = lo + (hi - lo) / 2;
        proof {
            assert(s[mid as int].0 == v@[mid as int].0);
        }
        let a = v[mid].0;
        if a.address < t || (a.address == t && a.length <= 48) {
            proof {
                assert forall|i: int| 0 <= i < mid + 1 implies key_le_pair(
                    #[trigger] s[i].0,
                    t,
                ) by {
                    if i < mid {
                        assert(key_lt(s[i].0, s[mid as int].0));
                    }
                }
            }
            lo = mid + 1;
        } else {
            proof {
                assert forall|i: int| mid <= i < n implies !key_le_pair(#[trigger] s[i].0, t) by {
                    if i > mid {
                        assert(key_lt(s[mid as int].0, s[i].0));
                    }
                }
            }
            hi = mid;
        }
    }
    proof {
        lemma_count_le_bounds(s, t);
        let c = count_le(s, t);
        if (lo as int) < c {
            assert(key_le_pair(s[lo as int].0, t));
            assert(false);
        }
        if c < lo as int {
            assert(key_le_pair(s[c].0, t));
            assert(false);
        }
    }
    lo
}

/// Masking never increases a value.
proof fn lemma_bv_masked_le(t: u64, l: u8)
    requires
        l <= 48,
    ensures
        (t & mask_of(l)) <= t,
{
    let lv = l as u64;
    assert((t & ((((1u64 << lv) - 1) as u64) << ((48 - lv) as u64))) <= t) by (bit_vector)
        requires
            lv <= 48,
    ;
}

/// A longer prefix mask keeps at least as much of the target's value.
proof fn lemma_bv_mask_mono(t: u64, l1: u8, l2: u8)
    requires
        l1 <= l2 <= 48,
    ensures
        (t & mask_of(l1)) <= (t & mask_of(l2)),
{
    let v1 = l1 as u64;
    let v2 = l2 as u64;
    assert((t & ((((1u64 << v1) - 1) as u64) << ((48 - v1) as u64))) <= (t & ((((1u64 << v2)
        - 1) as u64) << ((48 - v2) as u64)))) by (bit_vector)
        requires
            v1 <= v2,
            v2 <= 48,
    ;
}

/// An aligned top-level address lying between a containing prefix's base and
/// the target must be the target's own top-level base.
proof fn lemma_bv_sandwich(t: u64, l: u8, a: u64, b: u64)
    requires
        t <= 0xFFFF_FFFF_FFFF,
        24 <= l <= 48,
        a == t & mask_of(l),
        a <= b <= t,
        b & mask_of(24) == b,
    ensures
        b == t & mask_of(24),
{
    let lv = l as u64;
    assert(b == (t & ((((1u64 << 24u64) - 1) as u64) << 24u64))) by (bit_vector)
        requires
            t <= 0xFFFF_FFFF_FFFF,
            24 <= lv <= 48,
            a == (t & ((((1u64 << lv) - 1) as u64) << ((48 - lv) as u64))),
            a <= b <= t,
            b & ((((1u64 << 24u64) - 1) as u64) << 24u64) == b,
    ;
    assert(mask_of(24) == ((((1u64 << 24u64) - 1) as u64) << 24u64));
}

/// The backward scan returns the first containing entry at or below its start.
proof fn lemma_scan_some(s: Seq<(Oui, MetaView)>, t: u64, i: int)
    requires
        i < s.len(),
    ensures
        match scan_down(s, t, i) {
            Some(j) => 0 <= j <= i && s[j].0.spec_contains(target48(t)) && (forall|k: int|
                j < k <= i ==> !(#[trigger] s[k].0).spec_contains(target48(t))),
            None => true,
        },
    decreases i + 1,
{
    if 0 <= i {
        if !s[i].0.spec_contains(target48(t)) && s[i].0.length > 24 {
            lemma_scan_some(s, t, i - 1);
        }
    }
}

/// Result guarantee: when the query finds an entry, that entry contains the
/// target and is the most specific (longest) containing prefix in the table.
pub proof fn lemma_search_longest(s: Seq<(Oui, MetaView)>, t: u64)
    requires
        sorted_lt(s),
        entries_wf(s),
    ensures
        match spec_search(s, t) {
            Some(i) => 0 <= i < s.len() && s[i].0.spec_contains(target48(t)) && (forall|j: int|
                0 <= j < s.len() && (#[trigger] s[j].0).spec_contains(target48(t))
                    ==> s[j].0.length <= s[i].0.length),
            None => true,
        },
{
    lemma_count_le_bounds(s, t);
    let c = count_le(s, t);
    if c > 0 {
        lemma_scan_some(s, t, c - 1);
    }
    match spec_search(s, t) {
        Some(i) => {
            assert forall|j: int|
                0 <= j < s.len() && (#[trigger] s[j].0).spec_contains(
                    target48(t),
                ) implies s[j].0.length <= s[i].0.length by {
                if s[j].0.length > s[i].0.length {
                    lemma_bv_mask_mono(t, s[i].0.length, s[j].0.length);
                    assert(s[i].0.address <= s[j].0.address);
                    lemma_bv_masked_le(t, s[j].0.length);
                    assert(s[j].0.address <= t);
                    assert(key_le_pair(s[j].0, t));
                    assert(j < c);
                    if j < i {
                        assert(key_lt(s[j].0, s[i].0));
                        assert(false);
                    }
                    assert(i < j <= c - 1);
                    assert(!s[j].0.spec_contains(target48(t)));
                    assert(false);
                }
            }
        },
        None => {},
    }
}

/// Scanning down from a position keyed at or before the target, an empty
/// outcome means nothing at or below that position contains the target,
/// provided every top-level entry is aligned to its 24-bit boundary.
proof fn lemma_scan_none_aligned(s: Seq<(Oui, MetaView)>, t: u64, i: int)
    requires
        t <= 0xFFFF_FFFF_FFFF,
        sorted_lt(s),
        entries_wf(s),
        forall|k: int|
            0 <= k < s.len() && (#[trigger] s[k].0).length == 24 ==> s[k].0.address & mask_of(24)
                == s[k].0.address,
        i < s.len(),
        0 <= i ==> key_le_pair(s[i].0, t),
        scan_down(s, t, i) is None,
    ensures
        forall|k: int| 0 <= k <= i ==> !(#[trigger] s[k].0).spec_contains(target48(t)),
    decreases i + 1,
{
    if i >= 0 {
        assert(!s[i].0.spec_contains(target48(t)));
        if s[i].0.length <= 24 {
            assert(s[i].0.length == 24);
            assert forall|k: int|
                0 <= k <= i implies !(#[trigger] s[k].0).spec_contains(target48(t)) by {
                if k < i && s[k].0.spec_contains(target48(t)) {
                    assert(key_lt(s[k].0, s[i].0));
                    assert(s[k].0.address <= s[i].0.address);
                    assert(s[i].0.address <= t);
                    lemma_bv_sandwich(t, s[k].0.length, s[k].0.address, s[i].0.address);
                    assert(s[i].0.spec_contains(target48(t)));
                    assert(false);
                }
            }
        } else {
            assert(scan_down(s, t, i - 1) is None);
            if i - 1 >= 0 {
                assert(key_lt(s[i - 1].0, s[i].0));
                assert(s[i - 1].0.length <= 48);
                assert(key_le_pair(s[i - 1].0, t));
            }
            lemma_scan_none_aligned(s, t, i - 1);
        }
    }
}

/// When every top-level entry is aligned to its 24-bit boundary (as the
/// published datasets are), an empty query result is conclusive: no entry in
/// the table contains the target.
pub proof fn lemma_search_none(s: Seq<(Oui, MetaView)>, t: u64)
    requires
        t <= 0xFFFF_FFFF_FFFF,
        sorted_lt(s),
        entries_wf(s),
        forall|k: int|
            0 <= k < s.len() && (#[trigger] s[k].0).length == 24 ==> s[k].0.address & mask_of(24)
                == s[k].0.address,
        spec_search(s, t) is None,
    ensures
        forall|j: int| 0 <= j < s.len() ==> !(#[trigger] s[j].0).spec_contains(target48(t)),
{
    lemma_count_le_bounds(s, t);
    let c = count_le(s, t);
    if c > 0 {
        assert(key_le_pair(s[c - 1].0, t));
    }
    lemma_scan_none_aligned(s, t, c - 1);
    assert forall|j: int|
        0 <= j < s.len() implies !(#[trigger] s[j].0).spec_contains(target48(t)) by {
        if s[j].0.spec_contains(target48(t)) {
            lemma_bv_masked_le(t, s[j].0.length);
            assert(s[j].0.address <= t);
            assert(s[j].0.length <= 48);
            assert(key_le_pair(s[j].0, t));
            assert(j < c);
            assert(false);
        }
    }
}

/// Two strictly sorted tables holding the same records are identical.
pub proof fn lemma_sorted_unique(s1: Seq<(Oui, MetaView)>, s2: Seq<(Oui, MetaView)>)
    requires
        sorted_lt(s1),
        sorted_lt(s2),
        s1.to_multiset() == s2.to_multiset(),
    ensures
        s1 == s2,
    decreases s1.len(),
{
    broadcast use vstd::seq_lib::group_to_multiset_ensures;

    if s1.len() == 0 {
        assert(s1.to_multiset().len() == 0);
        assert(s2.len() == 0);
        assert(s1 =~= s2);
    } else {
        assert(s1.to_multiset().len() == s1.len());
        assert(s2.to_multiset().len() == s2.len());
        assert(s2.len() == s1.len());
        let x = s1.last();
        assert(s1.contains(x));
        assert(s2.to_multiset().count(x) > 0);
        assert(s2.contains(x));
        let j = choose|j: int| 0 <= j < s2.len() && s2[j] == x;
        if j < s2.len() - 1 {
            let y = s2.last();
            assert(key_lt(s2[j].0, y.0));
            assert(s2.contains(y));
            assert(s1.to_multiset().count(y) > 0);
            assert(s1.contains(y));
            let i = choose|i: int| 0 <= i < s1.len() && s1[i] == y;
            if i < s1.len() - 1 {
                assert(key_lt(s1[i].0, s1.last().0));
                assert(false);
            } else {
                assert(false);
            }
        }
        let p1 = s1.drop_last();
        let p2 = s2.drop_last();
        assert(s1 =~= p1.push(x));
        assert(s2 =~= p2.push(x));
        assert(s1.to_multiset() =~= p1.to_multiset().insert(x));
        assert(s2.to_multiset() =~= p2.to_multiset().insert(x));
        assert(p1.to_multiset() =~= s1.to_multiset().remove(x));
        assert(p2.to_multiset() =~= s2.to_multiset().remove(x));
        assert(forall|a: int, b: int|
            0 <= a < b < p1.len() ==> key_lt(#[trigger] p1[a].0, #[trigger] p1[b].0));
        assert(forall|a: int, b: int|
            0 <= a < b < p2.len() ==> key_lt(#[trigger] p2[a].0, #[trigger] p2[b].0));
        lemma_sorted_unique(p1, p2);
        assert(s1 =~= s2);
    }
}

/// Construction is order-insensitive: two well-formed databases holding the
/// same records (as a shuffled source text yields) have identical tables and
/// answer every query identically.
pub proof fn lemma_build_order_insensitive(db1: OuiDb, db2: OuiDb)
    requires
        db1.wf(),
        db2.wf(),
        db1@.to_multiset() == db2@.to_multiset(),
    ensures
        db1@ == db2@,
        forall|t: u64| #[trigger] spec_search(db1@, t) == spec_search(db2@, t),
{
    lemma_sorted_unique(db1@, db2@);
}

/// Queries are deterministic: the answer is a function of the table and the
/// queried address alone, so asking twice yields identical results.
pub proof fn lemma_search_deterministic(db: OuiDb, m1: eui48::MacAddress, m2: eui48::MacAddress)
    requires
        mac_octets(m1) == mac_octets(m2),
    ensures
        spec_search(db@, mac_addr48(m1)) == spec_search(db@, mac_addr48(m2)),
{
}

} // verus!
