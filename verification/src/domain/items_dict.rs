//! Standard names of line items, and the labels that have none.

use vstd::prelude::*;
use vstd::string::*;

use crate::text::{
    debug_quoted, decimal, decimal_string, distinct, law_pieces_join_to_the_text, lemma_split_step,
    lemma_split_whole, lines, lines_of, push_distinct, quoted, split, split_chars, string_from,
    trim, trim_chars, views,
};
use crate::text_map::{TextMap, TextSet, ascending_texts};

verus! {

/// One item of the dictionary.
#[derive(Debug)]
pub struct ItemEntry {
    /// The standard name.
    pub cn: String,
}

/// The dictionary: items in the order of the file, and for each alias the item
/// that it names.
#[derive(Debug)]
pub struct ItemsDict {
    entries: Vec<ItemEntry>,
    by_alias: TextMap<usize>,
}

/// The standard names, and the position of the one that an alias stands for.
pub struct DictView {
    pub names: Seq<Seq<char>>,
    pub aliases: Map<Seq<char>, usize>,
}

/// The standard names of a list of items.
pub open spec fn names_of(entries: Seq<ItemEntry>) -> Seq<Seq<char>> {
    entries.map_values(|e: ItemEntry| e.cn@)
}

impl View for ItemsDict {
    type V = DictView;

    closed spec fn view(&self) -> DictView {
        DictView { names: names_of(self.entries@), aliases: self.by_alias@ }
    }
}

impl DictView {
    /// Every alias names an item.
    pub open spec fn wf(self) -> bool {
        forall|a: Seq<char>| #[trigger]
            self.aliases.contains_key(a) ==> self.aliases[a] < self.names.len()
    }

    /// The standard name that an alias stands for.
    pub open spec fn standard(self, label: Seq<char>) -> Option<Seq<char>> {
        if self.aliases.contains_key(label) {
            Some(self.names[self.aliases[label] as int])
        } else {
            None
        }
    }

    /// The standard name of a label, or the label itself.
    pub open spec fn normal(self, label: Seq<char>) -> Seq<char> {
        match self.standard(label) {
            Some(name) => name,
            None => label,
        }
    }
}

/// The fields of a line: what stands between bars, without white space at
/// either end.
pub open spec fn fields(line: Seq<char>) -> Seq<Seq<char>> {
    split(line, '|').map_values(|f: Seq<char>| trim(f))
}

/// Some alias field is empty.
pub open spec fn has_empty_alias(f: Seq<Seq<char>>) -> bool {
    exists|i: int| 1 <= i < f.len() && (#[trigger] f[i]).len() == 0
}

/// The first of `aliases` that is defined already.
pub open spec fn clash(known: Map<Seq<char>, usize>, aliases: Seq<Seq<char>>) -> Option<Seq<char>>
    decreases aliases.len(),
{
    if aliases.len() == 0 {
        None
    } else {
        match clash(known, aliases.drop_last()) {
            Some(a) => Some(a),
            None => if known.contains_key(aliases.last()) {
                Some(aliases.last())
            } else {
                None
            },
        }
    }
}

/// `known` with every one of `aliases` naming item `idx`.
pub open spec fn with_aliases(
    known: Map<Seq<char>, usize>,
    aliases: Seq<Seq<char>>,
    idx: usize,
) -> Map<Seq<char>, usize>
    decreases aliases.len(),
{
    if aliases.len() == 0 {
        known
    } else {
        with_aliases(known, aliases.drop_last(), idx).insert(aliases.last(), idx)
    }
}

/// What line `n` makes of a dictionary: nothing if it is empty or a comment;
/// otherwise an item, or an error.
pub open spec fn with_line(d: DictView, raw: Seq<char>, n: nat) -> Result<DictView, Seq<char>> {
    let line = trim(raw);
    let place = "line "@ + decimal(n);
    let f = fields(line);
    let aliases = distinct(f);
    if line.len() == 0 || line[0] == '#' {
        Ok(d)
    } else if f[0].len() == 0 {
        Err(place + ": empty cn"@)
    } else if has_empty_alias(f) {
        Err(place + ": empty alias field"@)
    } else {
        match clash(d.aliases, aliases) {
            Some(a) => Err(
                place + ": alias "@ + quoted(a) + " already defined in entry #"@ + decimal(
                    d.aliases[a] as nat,
                ),
            ),
            None => Ok(
                DictView {
                    names: d.names.push(f[0]),
                    aliases: with_aliases(d.aliases, aliases, d.names.len() as usize),
                },
            ),
        }
    }
}

/// What the lines of a file make.
pub open spec fn dict_of(lines: Seq<Seq<char>>) -> Result<DictView, Seq<char>>
    decreases lines.len(),
{
    if lines.len() == 0 {
        Ok(DictView { names: Seq::empty(), aliases: Map::empty() })
    } else {
        match dict_of(lines.drop_last()) {
            Ok(d) => with_line(d, lines.last(), lines.len()),
            Err(e) => Err(e),
        }
    }
}

/// A bad line spoils the file.
proof fn lemma_dict_of_error(lines: Seq<Seq<char>>, n: int, e: Seq<char>)
    requires
        0 <= n <= lines.len(),
        dict_of(lines.take(n)) == Err::<DictView, Seq<char>>(e),
    ensures
        dict_of(lines) == Err::<DictView, Seq<char>>(e),
    decreases lines.len() - n,
{
    if n < lines.len() {
        assert(lines.take(n + 1).drop_last() =~= lines.take(n));
        lemma_dict_of_error(lines, n + 1, e);
    } else {
        assert(lines.take(n) =~= lines);
    }
}

impl ItemsDict {
    /// Every alias names an item.
    pub closed spec fn wf(self) -> bool {
        self.by_alias.wf() && self@.wf()
    }

    /// The item that an alias, or a standard name, stands for.
    pub fn lookup(&self, key: &str) -> (r: Option<&ItemEntry>)
        requires
            self.wf(),
        ensures
            match r {
                Some(e) => self@.standard(key@) == Some(e.cn@),
                None => self@.standard(key@) is None,
            },
    {
        match self.by_alias.get(key) {
            Some(i) => Some(&self.entries[*i]),
            None => None,
        }
    }

    /// The standard name of a label. A label without one is given back as it
    /// is, and noted in `unmapped`.
    pub fn normalize(&self, upstream_item: &str, unmapped: &mut TextSet) -> (out: String)
        requires
            self.wf(),
            old(unmapped).wf(),
        ensures
            final(unmapped).wf(),
            out@ == self@.normal(upstream_item@),
            final(unmapped)@ == (if self@.standard(upstream_item@) is Some {
                old(unmapped)@
            } else {
                old(unmapped)@.insert(upstream_item@)
            }),
    {
        match self.lookup(upstream_item) {
            Some(e) => e.cn.clone(),
            None => {
                record_unmapped(unmapped, upstream_item);
                upstream_item.to_owned()
            },
        }
    }
}

/// Notes a label that the dictionary does not know.
pub fn record_unmapped(unmapped: &mut TextSet, name: &str)
    requires
        old(unmapped).wf(),
    ensures
        final(unmapped).wf(),
        final(unmapped)@ == old(unmapped)@.insert(name@),
{
    unmapped.insert(name.to_owned());
}

/// Takes the labels that were noted, in order and each once.
pub fn drain_unmapped(unmapped: &mut TextSet) -> (out: Vec<String>)
    requires
        old(unmapped).wf(),
    ensures
        final(unmapped).wf(),
        final(unmapped)@ == Set::<Seq<char>>::empty(),
        ascending_texts(views(out@)),
        views(out@).to_set() == old(unmapped)@,
{
    unmapped.drain()
}

/// The fields of a line, trimmed.
fn fields_of(line: &Vec<char>) -> (out: Vec<String>)
    ensures
        views(out@) == fields(line@),
        out@.len() >= 1,
{
    let parts = split_chars(line, '|');
    let mut out: Vec<String> = Vec::new();
    let mut i: usize = 0;
    while i < parts.len()
        invariant
            i <= parts@.len(),
            out@.len() == i,
            parts@.len() == split(line@, '|').len(),
            forall|k: int| 0 <= k < parts@.len() ==> (#[trigger] parts@[k])@ == split(line@, '|')[k],
            forall|k: int| 0 <= k < i ==> (#[trigger] out@[k])@ == trim(split(line@, '|')[k]),
        decreases parts@.len() - i,
    {
        out.push(string_from(&trim_chars(&parts[i])));
        i = i + 1;
    }
    proof {
        assert(views(out@) =~= fields(line@));
    }
    out
}

/// `f` without repetitions.
fn distinct_fields(f: &Vec<String>) -> (out: Vec<String>)
    ensures
        views(out@) == distinct(views(f@)),
{
    let mut out: Vec<String> = Vec::new();
    let mut i: usize = 0;
    proof {
        assert(views(f@).take(0) =~= Seq::empty());
        assert(views(out@) =~= Seq::empty());
    }
    while i < f.len()
        invariant
            i <= f@.len(),
            views(out@) == distinct(views(f@).take(i as int)),
        decreases f@.len() - i,
    {
        proof {
            let t = views(f@).take(i as int + 1);
            assert(t.drop_last() =~= views(f@).take(i as int));
            assert(t.last() == f@[i as int]@);
        }
        push_distinct(&mut out, f[i].as_str());
        i = i + 1;
    }
    proof {
        assert(views(f@).take(f@.len() as int) =~= views(f@));
    }
    out
}

/// The first alias that is defined already, and the item that it names.
fn find_clash(known: &TextMap<usize>, aliases: &Vec<String>) -> (r: Option<(usize, usize)>)
    requires
        known.wf(),
    ensures
        match r {
            Some((k, prev)) => k < aliases@.len() && clash(known@, views(aliases@)) == Some(
                aliases@[k as int]@,
            ) && known@[aliases@[k as int]@] == prev,
            None => clash(known@, views(aliases@)) is None,
        },
{
    let ghost v = views(aliases@);
    let mut found: Option<(usize, usize)> = None;
    let mut i: usize = 0;
    while i < aliases.len()
        invariant
            v == views(aliases@),
            known.wf(),
            i <= aliases@.len(),
            match found {
                Some((k, prev)) => k < aliases@.len() && clash(known@, v.take(i as int)) == Some(
                    aliases@[k as int]@,
                ) && known@[aliases@[k as int]@] == prev,
                None => clash(known@, v.take(i as int)) is None,
            },
        decreases aliases@.len() - i,
    {
        proof {
            let t = v.take(i as int + 1);
            assert(t.drop_last() =~= v.take(i as int));
            assert(t.last() == aliases@[i as int]@);
        }
        match found {
            Some(_) => {},
            None => {
                match known.get(aliases[i].as_str()) {
                    Some(prev) => {
                        found = Some((i, *prev));
                    },
                    None => {},
                }
            },
        }
        i = i + 1;
    }
    proof {
        assert(v.take(v.len() as int) =~= v);
    }
    found
}

/// The dictionary of a text: one item on each line that is neither empty nor a
/// comment, its standard name first and its other names behind it, with bars
/// between them.
pub fn load_dict(text: &str) -> (r: Result<ItemsDict, String>)
    ensures
        match r {
            Ok(d) => d.wf() && dict_of(lines(text@)) == Ok::<DictView, Seq<char>>(d@),
            Err(e) => dict_of(lines(text@)) == Err::<DictView, Seq<char>>(e@),
        },
{
    let rows = lines_of(text);
    let ghost all = lines(text@);
    let mut entries: Vec<ItemEntry> = Vec::new();
    let mut by_alias: TextMap<usize> = TextMap::new();
    let mut i: usize = 0;
    proof {
        assert(names_of(entries@) =~= Seq::empty());
        assert(all.take(0) =~= Seq::empty());
    }
    while i < rows.len()
        invariant
            rows@.len() == all.len(),
            all == lines(text@),
            forall|k: int| 0 <= k < rows@.len() ==> (#[trigger] rows@[k])@ == all[k],
            i <= rows@.len(),
            entries@.len() <= i,
            by_alias.wf(),
            dict_of(all.take(i as int)) == Ok::<DictView, Seq<char>>(
                (DictView { names: names_of(entries@), aliases: by_alias@ }),
            ),
            (DictView { names: names_of(entries@), aliases: by_alias@ }).wf(),
        decreases rows@.len() - i,
    {
        let ghost d = DictView { names: names_of(entries@), aliases: by_alias@ };
        proof {
            let t = all.take(i as int + 1);
            assert(t.drop_last() =~= all.take(i as int));
            assert(t.last() == rows@[i as int]@);
            assert(dict_of(t) == with_line(d, rows@[i as int]@, (i + 1) as nat));
        }
        let line = trim_chars(&rows[i]);
        i = i + 1;
        if line.len() == 0 || line[0] == '#' {
            continue;
        }
        let number = decimal_string(i as u64);
        let f = fields_of(&line);
        if f[0].as_str().is_empty() {
            let mut e = "line ".to_owned();
            e.append(number.as_str());
            e.append(": empty cn");
            proof {
                lemma_dict_of_error(all, i as int, e@);
            }
            return Err(e);
        }
        let mut k: usize = 1;
        while k < f.len()
            invariant
                1 <= k <= f@.len(),
                views(f@) == fields(line@),
                forall|j: int| 1 <= j < k ==> (#[trigger] fields(line@)[j]).len() > 0,
                number@ == decimal(i as nat),
                0 < i <= all.len(),
                all == lines(text@),
                line@.len() > 0 && line@[0] != '#',
                fields(line@)[0].len() > 0,
                dict_of(all.take(i as int)) == with_line(d, all[i as int - 1], i as nat),
                line@ == trim(all[i as int - 1]),
            decreases f@.len() - k,
        {
            assert(fields(line@)[k as int] == f@[k as int]@);
            if f[k].as_str().is_empty() {
                let mut e = "line ".to_owned();
                e.append(number.as_str());
                e.append(": empty alias field");
                proof {
                    assert(has_empty_alias(fields(line@)));
                    lemma_dict_of_error(all, i as int, e@);
                }
                return Err(e);
            }
            k = k + 1;
        }
        assert(!has_empty_alias(fields(line@)));
        let aliases = distinct_fields(&f);
        match find_clash(&by_alias, &aliases) {
            Some((k, prev)) => {
                let q = debug_quoted(aliases[k].as_str());
                let mut e = "line ".to_owned();
                e.append(number.as_str());
                e.append(": alias ");
                e.append(q.as_str());
                e.append(" already defined in entry #");
                e.append(decimal_string(prev as u64).as_str());
                proof {
                    lemma_dict_of_error(all, i as int, e@);
                }
                return Err(e);
            },
            None => {},
        }
        let idx: usize = entries.len();
        let ghost known = by_alias@;
        let ghost v = views(aliases@);
        let mut k: usize = 0;
        proof {
            assert(v.take(0) =~= Seq::empty());
        }
        while k < aliases.len()
            invariant
                k <= aliases@.len(),
                v == views(aliases@),
                by_alias.wf(),
                by_alias@ == with_aliases(known, v.take(k as int), idx),
                forall|a: Seq<char>| #[trigger]
                    by_alias@.contains_key(a) ==> by_alias@[a] <= idx,
            decreases aliases@.len() - k,
        {
            proof {
                let t = v.take(k as int + 1);
                assert(t.drop_last() =~= v.take(k as int));
                assert(t.last() == aliases@[k as int]@);
            }
            by_alias.insert(aliases[k].clone(), idx);
            k = k + 1;
        }
        proof {
            assert(v.take(v.len() as int) =~= v);
        }
        let ghost names = names_of(entries@);
        let cn = f[0].clone();
        proof {
            assert(fields(line@)[0] == cn@);
        }
        entries.push(ItemEntry { cn });
        proof {
            assert(names_of(entries@) =~= names.push(fields(line@)[0]));
        }
    }
    proof {
        assert(all.take(all.len() as int) =~= all);
    }
    Ok(ItemsDict { entries, by_alias })
}

/// A line that is empty but for white space, or a comment, changes nothing. Any
/// other is an item exactly if none of its names is empty and none is known
/// already; it is then the last item, under the first of its names.
pub proof fn law_which_lines_are_items(d: DictView, raw: Seq<char>, n: nat)
    ensures
        ({
            let line = trim(raw);
            let names = fields(line);
            &&& line.len() == 0 || line[0] == '#' ==> with_line(d, raw, n) == Ok::<
                DictView,
                Seq<char>,
            >(d)
            &&& line.len() > 0 && line[0] != '#' ==> {
                &&& with_line(d, raw, n) is Ok <==> forall|i: int|
                    0 <= i < names.len() ==> (#[trigger] names[i]).len() > 0
                        && !d.aliases.contains_key(names[i])
                &&& with_line(d, raw, n) matches Ok(e) ==> e.names == d.names.push(names[0])
            }
        }),
{
    let line = trim(raw);
    let names = fields(line);
    let known = d.aliases;
    let aliases = distinct(names);
    law_pieces_join_to_the_text(line, '|');
    assert(names.len() >= 1);
    lemma_clash(known, aliases);
    if forall|i: int|
        0 <= i < names.len() ==> (#[trigger] names[i]).len() > 0 && !known.contains_key(names[i]) {
        assert(names[0].len() > 0);
        if clash(known, aliases) is Some {
            let a = clash(known, aliases)->0;
            lemma_distinct_contains(names, a);
            let i = choose|i: int| 0 <= i < names.len() && names[i] == a;
            assert(!known.contains_key(names[i]));
        }
    }
    if with_line(d, raw, n) is Ok && line.len() > 0 && line[0] != '#' {
        assert forall|i: int| 0 <= i < names.len() implies (#[trigger] names[i]).len() > 0
            && !known.contains_key(names[i]) by {
            assert(names.contains(names[i]));
            lemma_distinct_contains(names, names[i]);
            lemma_with_aliases(known, aliases, 0, names[i]);
        }
    }
}

/// A bar ends a name, and white space round a name does not count.
pub proof fn law_names_stand_between_bars(a: Seq<char>, b: Seq<char>)
    requires
        forall|i: int| 0 <= i < a.len() ==> #[trigger] a[i] != '|',
    ensures
        fields(a) == seq![trim(a)],
        fields(a + seq!['|'] + b) == seq![trim(a)] + fields(b),
{
    lemma_split_whole(a, '|');
    lemma_split_step(a, '|', b);
    assert(fields(a) =~= seq![trim(a)]);
    assert(fields(a + seq!['|'] + b) =~= seq![trim(a)] + fields(b));
}

/// An error tells the number of its line, counted from 1, and the first line that
/// is in error spoils the file, whatever follows.
pub proof fn law_an_error_tells_its_line(lines: Seq<Seq<char>>, n: int, d: DictView, e: Seq<char>)
    requires
        0 <= n < lines.len(),
        dict_of(lines.take(n)) == Ok::<DictView, Seq<char>>(d),
        with_line(d, lines[n], (n + 1) as nat) == Err::<DictView, Seq<char>>(e),
    ensures
        dict_of(lines) == Err::<DictView, Seq<char>>(e),
        ("line "@ + decimal((n + 1) as nat) + ": "@).is_prefix_of(e),
{
    let place = "line "@ + decimal((n + 1) as nat);
    let next = lines.take(n + 1);
    assert(next.drop_last() =~= lines.take(n));
    assert(next.last() == lines[n]);
    lemma_dict_of_error(lines, n + 1, e);
    reveal_strlit(": ");
    reveal_strlit(": empty cn");
    reveal_strlit(": empty alias field");
    reveal_strlit(": alias ");
    let head = place + ": "@;
    assert(e.len() >= head.len());
    assert(e.subrange(0, head.len() as int) =~= head);
}

/// A clash is one of the names, and it is known.
proof fn lemma_clash(known: Map<Seq<char>, usize>, aliases: Seq<Seq<char>>)
    ensures
        clash(known, aliases) matches Some(a) ==> aliases.contains(a) && known.contains_key(a),
    decreases aliases.len(),
{
    if aliases.len() > 0 {
        let d = aliases.drop_last();
        lemma_clash(known, d);
        if clash(known, d) is Some {
            let i = choose|i: int| 0 <= i < d.len() && d[i] == clash(known, d)->0;
            assert(aliases[i] == d[i]);
        } else {
            assert(aliases[aliases.len() - 1] == aliases.last());
        }
    }
}

/// Every name of an item, the standard one included, leads to it, and the
/// items that were there before are still found under the names that they had.
pub proof fn law_names_lead_to_their_item(d: DictView, raw: Seq<char>, n: nat, name: Seq<char>)
    requires
        d.wf(),
        d.names.len() < usize::MAX,
        trim(raw).len() > 0 && trim(raw)[0] != '#',
    ensures
        with_line(d, raw, n) matches Ok(e) ==> {
            &&& e.wf()
            &&& fields(trim(raw)).contains(name) ==> e.standard(name) == Some(
                fields(trim(raw))[0],
            ) && d.standard(name) is None
            &&& d.standard(name) is Some ==> e.standard(name) == d.standard(name)
        },
{
    let f = fields(trim(raw));
    let idx = d.names.len() as usize;
    lemma_distinct_contains(f, name);
    lemma_with_aliases(d.aliases, distinct(f), idx, name);
    if with_line(d, raw, n) is Ok {
        let e = with_line(d, raw, n)->Ok_0;
        assert forall|a: Seq<char>| #[trigger] e.aliases.contains_key(a) implies e.aliases[a]
            < e.names.len() by {
            lemma_with_aliases(d.aliases, distinct(f), idx, a);
        }
    }
}

/// A dictionary has no more items than its text has lines, and every standard
/// name is the standard name of itself.
proof fn lemma_standard_names(lines: Seq<Seq<char>>)
    requires
        lines.len() < usize::MAX,
        dict_of(lines) is Ok,
    ensures
        ({
            let d = dict_of(lines)->Ok_0;
            &&& d.wf()
            &&& d.names.len() <= lines.len()
            &&& forall|i: int|
                0 <= i < d.names.len() ==> d.standard(#[trigger] d.names[i]) == Some(d.names[i])
        }),
    decreases lines.len(),
{
    if lines.len() > 0 {
        lemma_standard_names(lines.drop_last());
        let d = dict_of(lines.drop_last())->Ok_0;
        let e = dict_of(lines)->Ok_0;
        let raw = lines.last();
        let f = fields(trim(raw));
        if trim(raw).len() > 0 && trim(raw)[0] != '#' {
            assert(e.names == d.names.push(f[0]));
            law_names_lead_to_their_item(d, raw, lines.len(), f[0]);
            assert(f.contains(f[0])) by {
                assert(split(trim(raw), '|').len() >= 1);
            }
            assert forall|i: int| 0 <= i < e.names.len() implies e.standard(#[trigger] e.names[i])
                == Some(e.names[i]) by {
                if i < d.names.len() {
                    assert(d.standard(d.names[i]) == Some(d.names[i]));
                    law_names_lead_to_their_item(d, raw, lines.len(), d.names[i]);
                }
            }
        }
    }
}

/// Taking the standard name of a label twice gives what taking it once gives.
pub proof fn law_normalizing_twice_changes_nothing(lines: Seq<Seq<char>>, label: Seq<char>)
    requires
        lines.len() < usize::MAX,
        dict_of(lines) is Ok,
    ensures
        ({
            let d = dict_of(lines)->Ok_0;
            d.normal(d.normal(label)) == d.normal(label)
        }),
{
    lemma_standard_names(lines);
    let d = dict_of(lines)->Ok_0;
    if d.aliases.contains_key(label) {
        let i = d.aliases[label] as int;
        assert(d.standard(d.names[i]) == Some(d.names[i]));
    }
}

proof fn lemma_distinct_contains(s: Seq<Seq<char>>, x: Seq<char>)
    ensures
        distinct(s).contains(x) == s.contains(x),
    decreases s.len(),
{
    if s.len() > 0 {
        let t = s.drop_last();
        lemma_distinct_contains(t, x);
        assert(s =~= t.push(s.last()));
        let d = distinct(t);
        if s.contains(x) {
            let i = choose|i: int| 0 <= i < s.len() && s[i] == x;
            if i < t.len() {
                assert(t[i] == x);
            }
        }
        if t.contains(x) {
            let i = choose|i: int| 0 <= i < t.len() && t[i] == x;
            assert(s[i] == x);
            let j = choose|j: int| 0 <= j < d.len() && d[j] == x;
            assert(d.push(s.last())[j] == x);
        }
        if distinct(s).contains(x) && !d.contains(x) {
            let j = choose|j: int| 0 <= j < distinct(s).len() && distinct(s)[j] == x;
            assert(j == d.len());
            assert(s[s.len() - 1] == x);
        }
        if x == s.last() && !d.contains(x) {
            assert(d.push(x)[d.len() as int] == x);
        }
    }
}

proof fn lemma_with_aliases(
    known: Map<Seq<char>, usize>,
    aliases: Seq<Seq<char>>,
    idx: usize,
    name: Seq<char>,
)
    ensures
        with_aliases(known, aliases, idx).contains_key(name) == (known.contains_key(name)
            || aliases.contains(name)),
        with_aliases(known, aliases, idx).contains_key(name) ==> with_aliases(
            known,
            aliases,
            idx,
        )[name] == (if aliases.contains(name) {
            idx
        } else {
            known[name]
        }),
        clash(known, aliases) is None && aliases.contains(name) ==> !known.contains_key(name),
    decreases aliases.len(),
{
    if aliases.len() > 0 {
        let t = aliases.drop_last();
        lemma_with_aliases(known, t, idx, name);
        if aliases.contains(name) {
            let i = choose|i: int| 0 <= i < aliases.len() && aliases[i] == name;
            if i < t.len() {
                assert(t[i] == name);
            }
        }
        if t.contains(name) {
            let i = choose|i: int| 0 <= i < t.len() && t[i] == name;
            assert(aliases[i] == name);
        }
        assert(aliases[aliases.len() - 1] == aliases.last());
    }
}

} // verus!
