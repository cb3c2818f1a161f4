//! Tag patterns and layer rules: which OSM features belong in a layer, which
//! of their tags become feature properties, and at which zoom levels.
use vstd::prelude::*;
use crate::config::LayerCfg;
use crate::error::{Error, ErrorModel};
use crate::text::{
    find_char, find_from, join_with, lemma_find_char_absent, lemma_find_char_after,
    lemma_find_char_bounds, lemma_join_push, lemma_split_join, lemma_split_pieces, split_on,
    split_str, substring, parse_u32, parse_u32_spec, parse_i64, parse_i64_spec, str_is,
};

verus! {

/// Highest zoom level of a tile.
pub const ZOOM_MAX: u32 = 30;

/// Whether a pattern must match for a feature to be accepted.
#[derive(Clone, Copy, Debug, PartialEq, Eq, Structural)]
pub enum MustMatch {
    No,
    Yes,
}

/// Whether the pattern's tag value becomes a feature property.
#[derive(Clone, Copy, Debug, PartialEq, Eq, Structural)]
pub enum IncludeValue {
    No,
    Yes,
}

/// MVT type of a property value.
#[derive(Clone, Copy, Debug, PartialEq, Eq, Structural)]
pub enum FeatureType {
    MvtString,
    MvtSint,
}

/// Whether the tag value must be one of the values, or none of them.
#[derive(Clone, Copy, Debug, PartialEq, Eq, Structural)]
pub enum Equality {
    Equal,
    NotEqual,
}

/// Data source of a layer.
#[derive(Clone, Copy, Debug, PartialEq, Eq, Structural)]
pub enum DataSource {
    /// OpenStreetMap
    Osm,
    /// JSON (reserved; nothing is extracted from it)
    Json,
}

/// Geometry kind of a layer.
#[derive(Clone, Copy, Debug, PartialEq, Eq, Structural)]
pub enum GeomKind {
    Point,
    Linestring,
    Polygon,
}

/// Tag pattern of a layer rule.
#[derive(Clone, Debug)]
pub struct TagPattern {
    must_match: MustMatch,
    inclusion: IncludeValue,
    feature_type: FeatureType,
    tag: String,
    equality: Equality,
    values: Vec<String>,
}

/// Mathematical model of a tag pattern.
pub struct PatternModel {
    pub must_match: MustMatch,
    pub inclusion: IncludeValue,
    pub feature_type: FeatureType,
    pub tag: Seq<char>,
    pub equality: Equality,
    pub values: Seq<Seq<char>>,
}

pub open spec fn strings_view(v: Seq<String>) -> Seq<Seq<char>> {
    v.map_values(|s: String| s@)
}

impl View for TagPattern {
    type V = PatternModel;

    closed spec fn view(&self) -> PatternModel {
        PatternModel {
            must_match: self.must_match,
            inclusion: self.inclusion,
            feature_type: self.feature_type,
            tag: self.tag@,
            equality: self.equality,
            values: strings_view(self.values@),
        }
    }
}

/// The value that stands for an absent (or empty) tag.
pub open spec fn absent_value() -> Seq<char> {
    seq!['_']
}

/// Prefix part of a pattern: the flags it sets and what follows it.
pub open spec fn rule_spec(p: Seq<char>) -> (MustMatch, IncludeValue, FeatureType, Seq<char>) {
    if p.len() > 0 && p[0] == '.' {
        (MustMatch::Yes, IncludeValue::Yes, FeatureType::MvtString, p.drop_first())
    } else if p.len() > 0 && p[0] == '?' {
        (MustMatch::No, IncludeValue::Yes, FeatureType::MvtString, p.drop_first())
    } else if p.len() > 0 && p[0] == '$' {
        (MustMatch::No, IncludeValue::Yes, FeatureType::MvtSint, p.drop_first())
    } else {
        (MustMatch::Yes, IncludeValue::No, FeatureType::MvtString, p)
    }
}

/// Equality part of a pattern: tag, equality and the text of the values.
pub open spec fn equality_spec(p: Seq<char>) -> (Seq<char>, Equality, Seq<char>) {
    let i = find_char(p, '=');
    if i < 0 {
        (p, Equality::NotEqual, absent_value())
    } else {
        let tag = p.take(i);
        let vals = p.skip(i + 1);
        if tag.len() > 0 && tag.last() == '!' {
            (tag.drop_last(), Equality::NotEqual, vals)
        } else {
            (tag, Equality::Equal, vals)
        }
    }
}

/// The pattern that a pattern string denotes.
pub open spec fn parse_spec(p: Seq<char>) -> PatternModel {
    let (must_match, inclusion, feature_type, rest) = rule_spec(p);
    let (tag, equality, vals) = equality_spec(rest);
    PatternModel { must_match, inclusion, feature_type, tag, equality, values: split_on(vals, '|') }
}

pub open spec fn prefix_spec(m: PatternModel) -> Seq<char> {
    if m.must_match == MustMatch::No && m.feature_type == FeatureType::MvtSint {
        seq!['$']
    } else if m.must_match == MustMatch::No {
        seq!['?']
    } else if m.inclusion == IncludeValue::Yes {
        seq!['.']
    } else {
        Seq::empty()
    }
}

/// Whether a pattern is written in the short form `tag` (for `tag!=_`).
pub open spec fn is_shorthand(m: PatternModel) -> bool {
    m.equality == Equality::NotEqual && m.values == seq![absent_value()]
}

/// Text of a pattern after its prefix.
pub open spec fn body_spec(m: PatternModel) -> Seq<char> {
    if is_shorthand(m) {
        m.tag
    } else {
        let eq = if m.equality == Equality::Equal { seq!['='] } else { seq!['!', '='] };
        m.tag + eq + join_with(m.values, '|')
    }
}

/// Canonical text of a pattern.
pub open spec fn format_spec(m: PatternModel) -> Seq<char> {
    prefix_spec(m) + body_spec(m)
}

/// Whether a pattern value list holds the value found for a tag; `_`
/// stands for a tag that is absent or empty.
pub open spec fn value_listed(values: Seq<Seq<char>>, value: Option<Seq<char>>) -> bool {
    match value {
        Some(v) => if v.len() == 0 { values.contains(absent_value()) } else { values.contains(v) },
        None => values.contains(absent_value()),
    }
}

/// Whether a pattern accepts the value found for its tag.
pub open spec fn accepts(m: PatternModel, value: Option<Seq<char>>) -> bool {
    match m.equality {
        Equality::Equal => value_listed(m.values, value),
        Equality::NotEqual => !value_listed(m.values, value),
    }
}

impl TagPattern {
    /// Get the tag
    pub fn tag(&self) -> (r: &String)
        ensures
            r@ == self@.tag,
    {
        &self.tag
    }

    /// Get the pattern values
    pub fn values(&self) -> (r: &Vec<String>)
        ensures
            strings_view(r@) == self@.values,
    {
        &self.values
    }

    /// Get the MVT feature type
    pub fn feature_type(&self) -> (r: FeatureType)
        ensures
            r == self@.feature_type,
    {
        self.feature_type
    }

    /// Get tag for match patterns only
    pub fn match_key(&self) -> (r: Option<&String>)
        ensures
            match r {
                Some(t) => self@.must_match == MustMatch::Yes && t@ == self@.tag,
                None => self@.must_match == MustMatch::No,
            },
    {
        match self.must_match {
            MustMatch::Yes => Some(&self.tag),
            MustMatch::No => None,
        }
    }

    /// Get tag for inclusion patterns only
    pub fn include_key(&self) -> (r: Option<&String>)
        ensures
            match r {
                Some(t) => self@.inclusion == IncludeValue::Yes && t@ == self@.tag,
                None => self@.inclusion == IncludeValue::No,
            },
    {
        match self.inclusion {
            IncludeValue::Yes => Some(&self.tag),
            IncludeValue::No => None,
        }
    }

    /// Check if the value matches
    pub fn matches_value(&self, value: Option<&String>) -> (r: bool)
        ensures
            r == accepts(self@, match value { Some(v) => Some(v@), None => None }),
    {
        match self.equality {
            Equality::Equal => self.matches_value_option(value),
            Equality::NotEqual => !self.matches_value_option(value),
        }
    }

    /// Check if an optional value is one of the pattern values
    pub fn matches_value_option(&self, value: Option<&String>) -> (r: bool)
        ensures
            r == value_listed(self@.values, match value { Some(v) => Some(v@), None => None }),
    {
        let absent = String::from_str("_");
        proof {
            reveal_strlit("_");
            assert(absent@ =~= absent_value());
        }
        let target: &String = match value {
            Some(v) => if v.unicode_len() > 0 { v } else { &absent },
            None => &absent,
        };
        proof {
            assert(value_listed(self@.values, match value { Some(v) => Some(v@), None => None })
                == strings_view(self.values@).contains(target@));
        }
        let mut i: usize = 0;
        while i < self.values.len()
            invariant
                0 <= i <= self.values@.len(),
                forall|j: int| 0 <= j < i ==> self.values@[j]@ != target@,
                value_listed(self@.values, match value { Some(v) => Some(v@), None => None })
                    == strings_view(self.values@).contains(target@),
            decreases self.values@.len() - i,
        {
            if self.values[i] == *target {
                proof {
                    assert(strings_view(self.values@)[i as int] == target@);
                    assert(strings_view(self.values@).contains(target@));
                }
                return true;
            }
            i = i + 1;
        }
        proof {
            if strings_view(self.values@).contains(target@) {
                let k = choose|k: int| 0 <= k < strings_view(self.values@).len()
                    && strings_view(self.values@)[k] == target@;
                assert(self.values@[k]@ == target@);
            }
        }
        false
    }

    /// Parse the prefix of a tag pattern
    pub fn parse_rule(pat: &str) -> (r: (MustMatch, IncludeValue, FeatureType, String))
        ensures
            (r.0, r.1, r.2, r.3@) == rule_spec(pat@),
    {
        let len = pat.unicode_len();
        if len > 0 {
            let c = pat.get_char(0);
            let rest = substring(pat, 1, len);
            proof {
                assert(rest@ =~= pat@.drop_first());
            }
            if c == '.' {
                return (MustMatch::Yes, IncludeValue::Yes, FeatureType::MvtString, rest);
            } else if c == '?' {
                return (MustMatch::No, IncludeValue::Yes, FeatureType::MvtString, rest);
            } else if c == '$' {
                return (MustMatch::No, IncludeValue::Yes, FeatureType::MvtSint, rest);
            }
        }
        (MustMatch::Yes, IncludeValue::No, FeatureType::MvtString, String::from_str(pat))
    }

    /// Parse the equality portion
    pub fn parse_equality(pat: &str) -> (r: (String, Equality, String))
        ensures
            (r.0@, r.1, r.2@) == equality_spec(pat@),
    {
        let len = pat.unicode_len();
        match find_from(pat, len, '=', 0) {
            Some(i) => {
                proof {
                    assert(pat@.skip(0) =~= pat@);
                }
                let values = substring(pat, i + 1, len);
                proof {
                    assert(values@ =~= pat@.skip(i + 1));
                }
                if i > 0 && pat.get_char(i - 1) == '!' {
                    let tag = substring(pat, 0, i - 1);
                    proof {
                        assert(tag@ =~= pat@.take(i as int).drop_last());
                    }
                    (tag, Equality::NotEqual, values)
                } else {
                    let tag = substring(pat, 0, i);
                    proof {
                        assert(tag@ =~= pat@.take(i as int));
                    }
                    (tag, Equality::Equal, values)
                }
            },
            None => {
                proof {
                    assert(pat@.skip(0) =~= pat@);
                    reveal_strlit("_");
                }
                let absent = String::from_str("_");
                proof {
                    assert(absent@ =~= absent_value());
                }
                (String::from_str(pat), Equality::NotEqual, absent)
            },
        }
    }

    /// Parse the value(s) portion
    pub fn parse_values(values: &str) -> (r: Vec<String>)
        ensures
            strings_view(r@) == split_on(values@, '|'),
    {
        split_str(values, '|')
    }

    /// Parse a tag pattern
    pub fn parse(pat: &str) -> (r: TagPattern)
        ensures
            r@ == parse_spec(pat@),
            parsed_shape(r@),
    {
        proof {
            lemma_parsed_shape(pat@);
        }
        let (must_match, inclusion, feature_type, rest) = TagPattern::parse_rule(pat);
        let (tag, equality, values) = TagPattern::parse_equality(rest.as_str());
        let values = TagPattern::parse_values(values.as_str());
        TagPattern { must_match, inclusion, feature_type, tag, equality, values }
    }
}

impl TagPattern {
    /// Canonical text of the pattern
    pub fn to_string(&self) -> (r: String)
        ensures
            r@ == format_spec(self@),
    {
        let mut out = String::new();
        proof {
            reveal_strlit("$");
            reveal_strlit("?");
            reveal_strlit(".");
            reveal_strlit("_");
            reveal_strlit("=");
            reveal_strlit("!=");
            reveal_strlit("|");
        }
        if self.must_match == MustMatch::No && self.feature_type == FeatureType::MvtSint {
            out.append("$");
        } else if self.must_match == MustMatch::No {
            out.append("?");
        } else if self.inclusion == IncludeValue::Yes {
            out.append(".");
        }
        assert(out@ =~= prefix_spec(self@));
        out.append(self.tag.as_str());
        let absent = String::from_str("_");
        let short = self.equality == Equality::NotEqual && self.values.len() == 1
            && self.values[0] == absent;
        proof {
            assert(absent@ =~= absent_value());
            if self.equality == Equality::NotEqual && self.values@.len() == 1 {
                assert(strings_view(self.values@)[0] == self.values@[0]@);
                assert(strings_view(self.values@) =~= seq![self.values@[0]@]);
                if self.values@[0]@ != absent_value() {
                    assert(strings_view(self.values@)[0] != absent_value());
                }
            }
            assert(strings_view(self.values@).len() == self.values@.len());
            if self.values@.len() != 1 {
                assert(strings_view(self.values@) != seq![absent_value()]);
            }
            assert(short == is_shorthand(self@));
        }
        if short {
            return out;
        }
        match self.equality {
            Equality::Equal => out.append("="),
            Equality::NotEqual => out.append("!="),
        }
        let ghost head = out@;
        let mut i: usize = 0;
        while i < self.values.len()
            invariant
                0 <= i <= self.values@.len(),
                out@ == head + join_with(strings_view(self.values@).take(i as int), '|'),
            decreases self.values@.len() - i,
        {
            proof {
                let vs = strings_view(self.values@);
                assert(vs.take(i + 1) =~= vs.take(i as int).push(self.values@[i as int]@));
                lemma_join_push(vs.take(i as int), self.values@[i as int]@, '|');
            }
            proof {
                reveal_strlit("|");
            }
            if i > 0 {
                out.append("|");
            }
            out.append(self.values[i].as_str());
            proof {
                let vs = strings_view(self.values@);
                assert(vs[i as int] == self.values@[i as int]@);
                if i == 0 {
                    assert(out@ =~= head + join_with(vs.take(i + 1), '|'));
                } else {
                    assert(out@ =~= head + join_with(vs.take(i + 1), '|'));
                }
            }
            i = i + 1;
        }
        proof {
            assert(strings_view(self.values@).take(i as int) =~= strings_view(self.values@));
        }
        out
    }
}

/// Whether a pattern string has one of the prefix characters first.
pub open spec fn starts_with_prefix(s: Seq<char>) -> bool {
    s.len() > 0 && (s[0] == '.' || s[0] == '?' || s[0] == '$')
}

/// What a parsed pattern always satisfies.
pub open spec fn parsed_shape(m: PatternModel) -> bool {
    &&& !m.tag.contains('=')
    &&& (m.equality == Equality::Equal ==> !(m.tag.len() > 0 && m.tag.last() == '!'))
    &&& m.values.len() > 0
    &&& forall|i: int| 0 <= i < m.values.len() ==> !(#[trigger] m.values[i]).contains('|')
    &&& (m.must_match == MustMatch::Yes && m.inclusion == IncludeValue::No
        ==> !starts_with_prefix(m.tag))
    &&& (m.must_match == MustMatch::No ==> m.inclusion == IncludeValue::Yes)
    &&& (m.feature_type == FeatureType::MvtSint ==> m.must_match == MustMatch::No)
}

proof fn lemma_parsed_shape(p: Seq<char>)
    ensures
        parsed_shape(parse_spec(p)),
{
    let (mm, inc, ft, rest) = rule_spec(p);
    let m = parse_spec(p);
    lemma_find_char_bounds(rest, '=');
    let i = find_char(rest, '=');
    let (tag, eq, vals) = equality_spec(rest);
    lemma_split_pieces(vals, '|');
    if i < 0 {
        assert(split_on(absent_value(), '|') =~= seq![absent_value()]) by {
            lemma_find_char_absent(absent_value(), '|');
        }
    } else {
        assert(!rest.take(i).contains('=')) by {
            if rest.take(i).contains('=') {
                let k = choose|k: int| 0 <= k < rest.take(i).len() && rest.take(i)[k] == '=';
                assert(rest[k] == '=');
            }
        }
        if rest.take(i).len() > 0 && rest.take(i).last() == '!' {
            assert(!rest.take(i).drop_last().contains('=')) by {
                if rest.take(i).drop_last().contains('=') {
                    let k = choose|k: int| 0 <= k < rest.take(i).drop_last().len()
                        && rest.take(i).drop_last()[k] == '=';
                    assert(rest.take(i)[k] == '=');
                }
            }
        }
    }
    if mm == MustMatch::Yes && inc == IncludeValue::No {
        assert(rest == p);
        if m.tag.len() > 0 {
            assert(m.tag[0] == p[0]);
        }
    }
}

proof fn lemma_read_rule(m: PatternModel)
    requires
        parsed_shape(m),
    ensures
        rule_spec(format_spec(m)) == (m.must_match, m.inclusion, m.feature_type, body_spec(m)),
{
    let body = body_spec(m);
    let f = format_spec(m);
    if m.must_match == MustMatch::Yes && m.inclusion == IncludeValue::No {
        assert(f =~= body);
        if body.len() > 0 {
            if m.tag.len() > 0 {
                assert(body[0] == m.tag[0]);
            } else {
                assert(body[0] == '=' || body[0] == '!');
            }
        }
    } else {
        assert(f.drop_first() =~= body);
    }
}

proof fn lemma_read_equality(m: PatternModel)
    requires
        parsed_shape(m),
    ensures
        equality_spec(body_spec(m)).0 == m.tag,
        equality_spec(body_spec(m)).1 == m.equality,
        split_on(equality_spec(body_spec(m)).2, '|') == m.values,
{
    let body = body_spec(m);
    if is_shorthand(m) {
        lemma_find_char_absent(m.tag, '=');
        lemma_find_char_absent(absent_value(), '|');
        assert(split_on(absent_value(), '|') =~= seq![absent_value()]);
    } else {
        let joined = join_with(m.values, '|');
        lemma_split_join(m.values, '|');
        if m.equality == Equality::Equal {
            assert(body =~= m.tag + seq!['='] + joined);
            lemma_find_char_after(m.tag, '=', joined);
            assert(body.take(m.tag.len() as int) =~= m.tag);
            assert(body.skip(m.tag.len() as int + 1) =~= joined);
        } else {
            let bang = m.tag + seq!['!'];
            assert(body =~= bang + seq!['='] + joined);
            assert(!bang.contains('=')) by {
                if bang.contains('=') {
                    let k = choose|k: int| 0 <= k < bang.len() && bang[k] == '=';
                    assert(k < m.tag.len());
                    assert(m.tag[k] == '=');
                }
            }
            lemma_find_char_after(bang, '=', joined);
            assert(body.take(bang.len() as int) =~= bang);
            assert(bang.drop_last() =~= m.tag);
            assert(body.skip(bang.len() as int + 1) =~= joined);
        }
    }
}

/// Formatting a parsed pattern and parsing the text again gives the same
/// pattern: the text of a pattern is canonical up to this round trip.
pub proof fn lemma_format_round_trip(p: Seq<char>)
    ensures
        parse_spec(format_spec(parse_spec(p))) == parse_spec(p),
{
    let m = parse_spec(p);
    lemma_parsed_shape(p);
    lemma_read_rule(m);
    lemma_read_equality(m);
    let r = parse_spec(format_spec(m));
    assert(r.tag =~= m.tag);
    assert(r.values =~= m.values);
}

} // verus!

verus! {

/// The tags of one OSM object, as key / value pairs.
#[derive(Clone, Debug)]
pub struct Tags {
    pairs: Vec<(String, String)>,
}

impl View for Tags {
    type V = Seq<(Seq<char>, Seq<char>)>;

    closed spec fn view(&self) -> Seq<(Seq<char>, Seq<char>)> {
        self.pairs@.map_values(|t: (String, String)| (t.0@, t.1@))
    }
}

/// Value of the first pair with the key.
pub open spec fn tag_get(tags: Seq<(Seq<char>, Seq<char>)>, key: Seq<char>) -> Option<Seq<char>>
    decreases tags.len(),
{
    if tags.len() == 0 {
        None
    } else if tags[0].0 == key {
        Some(tags[0].1)
    } else {
        tag_get(tags.drop_first(), key)
    }
}

impl Tags {
    /// Create an empty tag list
    pub fn new() -> (r: Tags)
        ensures
            r@ == Seq::<(Seq<char>, Seq<char>)>::empty(),
    {
        let r = Tags { pairs: Vec::new() };
        assert(r@ =~= Seq::<(Seq<char>, Seq<char>)>::empty());
        r
    }

    /// Add a key / value pair
    pub fn push(&mut self, key: &str, value: &str)
        ensures
            final(self)@ == old(self)@.push((key@, value@)),
    {
        self.pairs.push((String::from_str(key), String::from_str(value)));
        assert(self@ =~= old(self)@.push((key@, value@)));
    }

    /// Number of pairs
    pub fn len(&self) -> (r: usize)
        ensures
            r == self@.len(),
    {
        self.pairs.len()
    }

    /// Value of the first pair with the key
    pub fn get(&self, key: &str) -> (r: Option<&String>)
        ensures
            match r {
                Some(v) => tag_get(self@, key@) == Some(v@),
                None => tag_get(self@, key@) is None,
            },
    {
        let k = String::from_str(key);
        let mut i: usize = 0;
        assert(self@.skip(0) =~= self@);
        while i < self.pairs.len()
            invariant
                i <= self.pairs@.len(),
                k@ == key@,
                tag_get(self@, key@) == tag_get(self@.skip(i as int), key@),
            decreases self.pairs@.len() - i,
        {
            proof {
                assert(self@.skip(i as int)[0] == (self.pairs@[i as int].0@, self.pairs@[i as int].1@));
                assert(self@.skip(i as int).drop_first() =~= self@.skip(i + 1));
            }
            if self.pairs[i].0 == k {
                return Some(&self.pairs[i].1);
            }
            i = i + 1;
        }
        None
    }
}

/// The pattern with the other equality and the same tag and values.
pub open spec fn negated(m: PatternModel) -> PatternModel {
    PatternModel {
        equality: match m.equality {
            Equality::Equal => Equality::NotEqual,
            Equality::NotEqual => Equality::Equal,
        },
        ..m
    }
}

/// A pattern `tag=values` matches a tag list exactly when `tag!=values` does not.
pub proof fn lemma_equality_negates(m: PatternModel, tags: Seq<(Seq<char>, Seq<char>)>)
    ensures
        accepts(m, tag_get(tags, m.tag)) == !accepts(negated(m), tag_get(tags, m.tag)),
{
}

/// Parse result of a zoom level.
pub open spec fn zoom_spec(z: Seq<char>) -> Result<u32, ErrorModel> {
    match parse_u32_spec(z) {
        Some(n) => if n <= ZOOM_MAX { Ok(n) } else { Err(ErrorModel::InvalidZoomLevel(n)) },
        None => Err(ErrorModel::InvalidZoom(z)),
    }
}

/// Parse result of a zoom range `N`, `N-M` or `N+`.
pub open spec fn zoom_range_spec(z: Seq<char>) -> Result<(u32, u32), ErrorModel> {
    let i = find_char(z, '-');
    if i >= 0 {
        match zoom_spec(z.take(i)) {
            Err(e) => Err(e),
            Ok(a) => match zoom_spec(z.skip(i + 1)) {
                Err(e) => Err(e),
                Ok(b) => if a <= b { Ok((a, b)) } else { Err(ErrorModel::InvalidZoomLevel(a)) },
            },
        }
    } else if z.len() > 0 && z.last() == '+' {
        match zoom_spec(z.drop_last()) {
            Err(e) => Err(e),
            Ok(a) => Ok((a, ZOOM_MAX)),
        }
    } else {
        match zoom_spec(z) {
            Err(e) => Err(e),
            Ok(a) => Ok((a, a)),
        }
    }
}

pub open spec fn result_view<T: View>(r: Result<T, Error>) -> Result<T::V, ErrorModel> {
    match r {
        Ok(v) => Ok(v@),
        Err(e) => Err(e@),
    }
}

/// Parse a zoom level
pub fn parse_zoom(zoom: &str) -> (r: Result<u32, Error>)
    ensures
        match r {
            Ok(n) => zoom_spec(zoom@) == Ok::<u32, ErrorModel>(n),
            Err(e) => zoom_spec(zoom@) == Err::<u32, ErrorModel>(e@),
        },
{
    match parse_u32(zoom) {
        Some(n) => {
            if n <= ZOOM_MAX {
                Ok(n)
            } else {
                Err(Error::InvalidZoomLevel(n))
            }
        },
        None => Err(Error::InvalidZoom(String::from_str(zoom))),
    }
}

/// Parse the zoom range of a layer rule
#[verifier::rlimit(40)]
pub fn parse_zoom_range(z: &str) -> (r: Result<(u32, u32), Error>)
    ensures
        match r {
            Ok(p) => zoom_range_spec(z@) == Ok::<(u32, u32), ErrorModel>(p),
            Err(e) => zoom_range_spec(z@) == Err::<(u32, u32), ErrorModel>(e@),
        },
{
    let len = z.unicode_len();
    proof {
        assert(z@.skip(0) =~= z@);
    }
    match find_from(z, len, '-', 0) {
        Some(i) => {
            assert(find_char(z@, '-') == i);
            let a = substring(z, 0, i);
            let b = substring(z, i + 1, len);
            proof {
                assert(a@ =~= z@.take(i as int));
                assert(b@ =~= z@.skip(i + 1));
            }
            let zoom_min = match parse_zoom(a.as_str()) {
                Ok(n) => n,
                Err(e) => return Err(e),
            };
            let zoom_max = match parse_zoom(b.as_str()) {
                Ok(n) => n,
                Err(e) => return Err(e),
            };
            if zoom_min <= zoom_max {
                Ok((zoom_min, zoom_max))
            } else {
                Err(Error::InvalidZoomLevel(zoom_min))
            }
        },
        None => {
            assert(find_char(z@, '-') == -1);
            if len > 0 && z.get_char(len - 1) == '+' {
                let a = substring(z, 0, len - 1);
                proof {
                    assert(a@ =~= z@.drop_last());
                }
                match parse_zoom(a.as_str()) {
                    Ok(n) => Ok((n, ZOOM_MAX)),
                    Err(e) => Err(e),
                }
            } else {
                match parse_zoom(z) {
                    Ok(n) => Ok((n, n)),
                    Err(e) => Err(e),
                }
            }
        },
    }
}

/// Parse result of the tag patterns of a layer: the patterns in order, or the
/// first pattern whose tag an earlier pattern already has.
pub open spec fn patterns_spec(tags: Seq<Seq<char>>) -> Result<Seq<PatternModel>, ErrorModel>
    decreases tags.len(),
{
    if tags.len() == 0 {
        Ok(Seq::empty())
    } else {
        match patterns_spec(tags.drop_last()) {
            Err(e) => Err(e),
            Ok(ms) => {
                let m = parse_spec(tags.last());
                if exists|i: int| 0 <= i < ms.len() && ms[i].tag == m.tag {
                    Err(ErrorModel::DuplicatePattern(tags.last()))
                } else {
                    Ok(ms.push(m))
                }
            },
        }
    }
}

pub open spec fn patterns_view(ps: Seq<TagPattern>) -> Seq<PatternModel> {
    ps.map_values(|p: TagPattern| p@)
}

proof fn lemma_patterns_err_stays(tags: Seq<Seq<char>>, k: int)
    requires
        0 <= k <= tags.len(),
        patterns_spec(tags.take(k)) is Err,
    ensures
        patterns_spec(tags) == patterns_spec(tags.take(k)),
    decreases tags.len() - k,
{
    if k < tags.len() {
        let next = tags.take(k + 1);
        assert(next.drop_last() =~= tags.take(k));
        lemma_patterns_err_stays(tags, k + 1);
    } else {
        assert(tags.take(k) =~= tags);
    }
}

/// Parse tag patterns of a layer rule
pub fn parse_patterns(tags: &Vec<String>) -> (r: Result<Vec<TagPattern>, Error>)
    ensures
        match r {
            Ok(ps) => patterns_spec(strings_view(tags@)) == Ok::<Seq<PatternModel>, ErrorModel>(patterns_view(ps@)),
            Err(e) => patterns_spec(strings_view(tags@)) == Err::<Seq<PatternModel>, ErrorModel>(e@),
        },
{
    let mut patterns: Vec<TagPattern> = Vec::new();
    let mut i: usize = 0;
    proof {
        assert(strings_view(tags@).take(0) =~= Seq::<Seq<char>>::empty());
        assert(patterns_view(patterns@) =~= Seq::<PatternModel>::empty());
    }
    while i < tags.len()
        invariant
            i <= tags@.len(),
            patterns_spec(strings_view(tags@).take(i as int)) == Ok::<Seq<PatternModel>, ErrorModel>(patterns_view(patterns@)),
        decreases tags@.len() - i,
    {
        let ghost prev = strings_view(tags@).take(i as int);
        let ghost next = strings_view(tags@).take(i + 1);
        proof {
            assert(next.drop_last() =~= prev);
            assert(next.last() == tags@[i as int]@);
        }
        let p = TagPattern::parse(tags[i].as_str());
        let mut j: usize = 0;
        while j < patterns.len()
            invariant
                i < tags@.len(),
                j <= patterns@.len(),
                p@ == parse_spec(tags@[i as int]@),
                next.drop_last() == prev,
                next.last() == tags@[i as int]@,
                next == strings_view(tags@).take(i + 1),
                patterns_spec(prev) == Ok::<Seq<PatternModel>, ErrorModel>(patterns_view(patterns@)),
                forall|k: int| 0 <= k < j ==> patterns@[k]@.tag != p@.tag,
            decreases patterns@.len() - j,
        {
            if *patterns[j].tag() == *p.tag() {
                proof {
                    assert(patterns_view(patterns@)[j as int].tag == p@.tag);
                    assert(patterns_spec(next) == Err::<Seq<PatternModel>, ErrorModel>(ErrorModel::DuplicatePattern(tags@[i as int]@)));
                    lemma_patterns_err_stays(strings_view(tags@), i + 1);
                    assert(strings_view(tags@).take(tags@.len() as int) =~= strings_view(tags@));
                }
                return Err(Error::DuplicatePattern(tags[i].clone()));
            }
            j = j + 1;
        }
        proof {
            assert(!(exists|k: int| 0 <= k < patterns_view(patterns@).len() && patterns_view(patterns@)[k].tag == p@.tag)) by {
                if exists|k: int| 0 <= k < patterns_view(patterns@).len() && patterns_view(patterns@)[k].tag == p@.tag {
                    let k = choose|k: int| 0 <= k < patterns_view(patterns@).len() && patterns_view(patterns@)[k].tag == p@.tag;
                    assert(patterns@[k]@.tag == p@.tag);
                }
            }
        }
        let ghost before = patterns@;
        patterns.push(p);
        proof {
            assert(patterns_view(patterns@) =~= patterns_view(before).push(p@));
        }
        i = i + 1;
    }
    proof {
        assert(strings_view(tags@).take(i as int) =~= strings_view(tags@));
    }
    Ok(patterns)
}

} // verus!

verus! {

pub open spec fn source_spec(s: Seq<char>) -> Result<DataSource, ErrorModel> {
    if s == seq!['o', 's', 'm'] {
        Ok(DataSource::Osm)
    } else if s == seq!['j', 's', 'o', 'n'] {
        Ok(DataSource::Json)
    } else {
        Err(ErrorModel::UnknownDataSource)
    }
}

pub open spec fn geom_kind_spec(s: Seq<char>) -> Result<GeomKind, ErrorModel> {
    if s == seq!['p', 'o', 'i', 'n', 't'] {
        Ok(GeomKind::Point)
    } else if s == seq!['l', 'i', 'n', 'e', 's', 't', 'r', 'i', 'n', 'g'] {
        Ok(GeomKind::Linestring)
    } else if s == seq!['p', 'o', 'l', 'y', 'g', 'o', 'n'] {
        Ok(GeomKind::Polygon)
    } else {
        Err(ErrorModel::UnknownGeometryType)
    }
}

/// Parse data source
pub fn parse_source(source: &str) -> (r: Result<DataSource, Error>)
    ensures
        match r {
            Ok(d) => source_spec(source@) == Ok::<DataSource, ErrorModel>(d),
            Err(e) => source_spec(source@) == Err::<DataSource, ErrorModel>(e@),
        },
{
    proof {
        reveal_strlit("osm");
        reveal_strlit("json");
    }
    if str_is(source, "osm") {
        assert(source@ =~= seq!['o', 's', 'm']);
        Ok(DataSource::Osm)
    } else if str_is(source, "json") {
        assert(source@ =~= seq!['j', 's', 'o', 'n']);
        Ok(DataSource::Json)
    } else {
        assert(source@ != seq!['o', 's', 'm']) by {
            if source@ == seq!['o', 's', 'm'] {
                assert("osm"@ =~= seq!['o', 's', 'm']);
            }
        }
        assert(source@ != seq!['j', 's', 'o', 'n']) by {
            if source@ == seq!['j', 's', 'o', 'n'] {
                assert("json"@ =~= seq!['j', 's', 'o', 'n']);
            }
        }
        Err(Error::UnknownDataSource)
    }
}

/// Parse geometry type
pub fn parse_geom_type(geom_tp: &str) -> (r: Result<GeomKind, Error>)
    ensures
        match r {
            Ok(g) => geom_kind_spec(geom_tp@) == Ok::<GeomKind, ErrorModel>(g),
            Err(e) => geom_kind_spec(geom_tp@) == Err::<GeomKind, ErrorModel>(e@),
        },
{
    proof {
        reveal_strlit("point");
        reveal_strlit("linestring");
        reveal_strlit("polygon");
        assert("point"@ =~= seq!['p', 'o', 'i', 'n', 't']);
        assert("linestring"@ =~= seq!['l', 'i', 'n', 'e', 's', 't', 'r', 'i', 'n', 'g']);
        assert("polygon"@ =~= seq!['p', 'o', 'l', 'y', 'g', 'o', 'n']);
    }
    if str_is(geom_tp, "point") {
        Ok(GeomKind::Point)
    } else if str_is(geom_tp, "linestring") {
        Ok(GeomKind::Linestring)
    } else if str_is(geom_tp, "polygon") {
        Ok(GeomKind::Polygon)
    } else {
        Err(Error::UnknownGeometryType)
    }
}

/// Layer rule definition
#[derive(Clone, Debug)]
pub struct LayerDef {
    name: String,
    source: DataSource,
    geom_tp: GeomKind,
    zoom_min: u32,
    zoom_max: u32,
    patterns: Vec<TagPattern>,
}

/// Mathematical model of a layer rule.
pub struct LayerModel {
    pub name: Seq<char>,
    pub source: DataSource,
    pub geom: GeomKind,
    pub zoom_min: u32,
    pub zoom_max: u32,
    pub patterns: Seq<PatternModel>,
}

impl View for LayerDef {
    type V = LayerModel;

    closed spec fn view(&self) -> LayerModel {
        LayerModel {
            name: self.name@,
            source: self.source,
            geom: self.geom_tp,
            zoom_min: self.zoom_min,
            zoom_max: self.zoom_max,
            patterns: patterns_view(self.patterns@),
        }
    }
}

/// The layer rule that a layer configuration denotes; the first failing
/// part, in the order source, geometry type, zoom, patterns, gives the error.
pub open spec fn layer_spec(cfg: &LayerCfg) -> Result<LayerModel, ErrorModel> {
    match source_spec(cfg.source@) {
        Err(e) => Err(e),
        Ok(source) => match geom_kind_spec(cfg.geom_type@) {
            Err(e) => Err(e),
            Ok(geom) => match zoom_range_spec(cfg.zoom@) {
                Err(e) => Err(e),
                Ok((zoom_min, zoom_max)) => match patterns_spec(strings_view(cfg.tags@)) {
                    Err(e) => Err(e),
                    Ok(patterns) => Ok(
                        LayerModel { name: cfg.name@, source, geom, zoom_min, zoom_max, patterns },
                    ),
                },
            },
        },
    }
}

/// Whether a zoom level lies in a layer's zoom range.
pub open spec fn in_zoom(l: LayerModel, zoom: u32) -> bool {
    l.zoom_min <= zoom && zoom <= l.zoom_max
}

/// Whether a tag list passes every pattern that must match.
pub open spec fn tags_match(patterns: Seq<PatternModel>, tags: Seq<(Seq<char>, Seq<char>)>) -> bool {
    forall|i: int|
        0 <= i < patterns.len() && (#[trigger] patterns[i]).must_match == MustMatch::Yes
            ==> accepts(patterns[i], tag_get(tags, patterns[i].tag))
}

/// Tag and sint flag of each pattern whose value is a property, in order.
pub open spec fn property_fields(patterns: Seq<PatternModel>) -> Seq<(Seq<char>, bool)>
    decreases patterns.len(),
{
    if patterns.len() == 0 {
        Seq::empty()
    } else {
        let r = property_fields(patterns.drop_last());
        let p = patterns.last();
        if p.inclusion == IncludeValue::Yes {
            r.push((p.tag, p.feature_type == FeatureType::MvtSint))
        } else {
            r
        }
    }
}

/// Tag, value and sint flag of each of the first `n` patterns that is
/// included and has a value; `values` is parallel to the patterns.
pub open spec fn tagged_values(
    patterns: Seq<PatternModel>,
    values: Seq<Option<Seq<char>>>,
    n: nat,
) -> Seq<(Seq<char>, Seq<char>, bool)>
    decreases n,
{
    if n == 0 {
        Seq::empty()
    } else {
        let r = tagged_values(patterns, values, (n - 1) as nat);
        let p = patterns[n - 1];
        if p.inclusion == IncludeValue::Yes {
            match values[n - 1] {
                Some(v) => r.push((p.tag, v, p.feature_type == FeatureType::MvtSint)),
                None => r,
            }
        } else {
            r
        }
    }
}

pub open spec fn min_len(a: nat, b: nat) -> nat {
    if a < b { a } else { b }
}

pub open spec fn values_view(v: Seq<Option<String>>) -> Seq<Option<Seq<char>>> {
    v.map_values(|o: Option<String>| match o { Some(s) => Some(s@), None => None })
}

/// Value of a feature property.
#[derive(Clone, Debug, PartialEq, Eq)]
pub enum PropValue {
    Str(String),
    Sint(i64),
}

/// Model of a property value.
pub enum PropModel {
    Str(Seq<char>),
    Sint(i64),
}

/// Feature property: a tag and its value.
#[derive(Clone, Debug, PartialEq, Eq)]
pub struct Property {
    pub tag: String,
    pub value: PropValue,
}

impl View for Property {
    type V = (Seq<char>, PropModel);

    open spec fn view(&self) -> (Seq<char>, PropModel) {
        (self.tag@, match self.value {
            PropValue::Str(s) => PropModel::Str(s@),
            PropValue::Sint(n) => PropModel::Sint(n),
        })
    }
}

/// Properties from tagged values: sint values that do not parse are dropped.
pub open spec fn properties_spec(tv: Seq<(Seq<char>, Seq<char>, bool)>) -> Seq<(Seq<char>, PropModel)>
    decreases tv.len(),
{
    if tv.len() == 0 {
        Seq::empty()
    } else {
        let r = properties_spec(tv.drop_last());
        let (tag, v, sint) = tv.last();
        if sint {
            match parse_i64_spec(v) {
                Some(n) => r.push((tag, PropModel::Sint(n))),
                None => r,
            }
        } else {
            r.push((tag, PropModel::Str(v)))
        }
    }
}

impl LayerDef {
    /// Create a layer rule from its configuration
    pub fn from_cfg(layer: &LayerCfg) -> (r: Result<LayerDef, Error>)
        ensures
            match r {
                Ok(l) => layer_spec(layer) == Ok::<LayerModel, ErrorModel>(l@),
                Err(e) => layer_spec(layer) == Err::<LayerModel, ErrorModel>(e@),
            },
    {
        let source = match parse_source(layer.source.as_str()) {
            Ok(s) => s,
            Err(e) => return Err(e),
        };
        let geom_tp = match parse_geom_type(layer.geom_type.as_str()) {
            Ok(g) => g,
            Err(e) => return Err(e),
        };
        let (zoom_min, zoom_max) = match parse_zoom_range(layer.zoom.as_str()) {
            Ok(z) => z,
            Err(e) => return Err(e),
        };
        let patterns = match parse_patterns(&layer.tags) {
            Ok(p) => p,
            Err(e) => return Err(e),
        };
        let name = layer.name.clone();
        assert(name@ == layer.name@);
        Ok(LayerDef { name, source, geom_tp, zoom_min, zoom_max, patterns })
    }

    /// Get the layer name
    pub fn name(&self) -> (r: &String)
        ensures
            r@ == self@.name,
    {
        &self.name
    }

    /// Get data source
    pub fn source(&self) -> (r: DataSource)
        ensures
            r == self@.source,
    {
        self.source
    }

    /// Get the geometry type
    pub fn geom_tp(&self) -> (r: GeomKind)
        ensures
            r == self@.geom,
    {
        self.geom_tp
    }

    /// Get the tag patterns
    pub fn patterns(&self) -> (r: &Vec<TagPattern>)
        ensures
            patterns_view(r@) == self@.patterns,
    {
        &self.patterns
    }

    /// Check if zoom level matches
    pub fn check_zoom(&self, zoom: u32) -> (r: bool)
        ensures
            r == in_zoom(self@, zoom),
    {
        zoom >= self.zoom_min && zoom <= self.zoom_max
    }

    /// Check if tags match all patterns that must match
    pub fn check_tags(&self, tags: &Tags) -> (r: bool)
        ensures
            r == tags_match(self@.patterns, tags@),
    {
        let mut i: usize = 0;
        while i < self.patterns.len()
            invariant
                i <= self.patterns@.len(),
                forall|k: int|
                    0 <= k < i && (#[trigger] self.patterns@[k])@.must_match == MustMatch::Yes
                        ==> accepts(self.patterns@[k]@, tag_get(tags@, self.patterns@[k]@.tag)),
            decreases self.patterns@.len() - i,
        {
            let pattern = &self.patterns[i];
            if let Some(tag) = pattern.match_key() {
                let value = tags.get(tag.as_str());
                if !pattern.matches_value(value) {
                    proof {
                        assert(self@.patterns[i as int] == pattern@);
                    }
                    return false;
                }
            }
            i = i + 1;
        }
        proof {
            assert forall|k: int|
                0 <= k < self@.patterns.len() && (#[trigger] self@.patterns[k]).must_match == MustMatch::Yes
                    implies accepts(self@.patterns[k], tag_get(tags@, self@.patterns[k].tag)) by {
                assert(self@.patterns[k] == self.patterns@[k]@);
            }
        }
        true
    }

    /// Tags to include as properties, with their sint flags, in pattern order
    pub fn property_fields(&self) -> (r: Vec<(String, bool)>)
        ensures
            r@.map_values(|f: (String, bool)| (f.0@, f.1)) == property_fields(self@.patterns),
    {
        let mut out: Vec<(String, bool)> = Vec::new();
        let mut i: usize = 0;
        while i < self.patterns.len()
            invariant
                i <= self.patterns@.len(),
                out@.map_values(|f: (String, bool)| (f.0@, f.1)) == property_fields(self@.patterns.take(i as int)),
            decreases self.patterns@.len() - i,
        {
            proof {
                assert(self@.patterns.take(i + 1).drop_last() =~= self@.patterns.take(i as int));
                assert(self@.patterns.take(i + 1).last() == self.patterns@[i as int]@);
            }
            let pattern = &self.patterns[i];
            let ghost before = out@;
            if let Some(tag) = pattern.include_key() {
                out.push((tag.clone(), pattern.feature_type() == FeatureType::MvtSint));
                proof {
                    assert(out@.map_values(|f: (String, bool)| (f.0@, f.1)) =~= before.map_values(
                        |f: (String, bool)| (f.0@, f.1),
                    ).push((pattern@.tag, pattern@.feature_type == FeatureType::MvtSint)));
                }
            }
            i = i + 1;
        }
        proof {
            assert(self@.patterns.take(i as int) =~= self@.patterns);
        }
        out
    }

    /// Names of the tags to include as properties, in pattern order
    pub fn tags(&self) -> (r: Vec<String>)
        ensures
            strings_view(r@) == property_fields(self@.patterns).map_values(|f: (Seq<char>, bool)| f.0),
    {
        let fields = self.property_fields();
        let mut out: Vec<String> = Vec::new();
        let mut i: usize = 0;
        while i < fields.len()
            invariant
                i <= fields@.len(),
                fields@.map_values(|f: (String, bool)| (f.0@, f.1)) == property_fields(self@.patterns),
                strings_view(out@) == property_fields(self@.patterns).take(i as int).map_values(
                    |f: (Seq<char>, bool)| f.0,
                ),
            decreases fields@.len() - i,
        {
            let ghost before = out@;
            out.push(fields[i].0.clone());
            proof {
                let pf = property_fields(self@.patterns);
                assert(pf[i as int] == (fields@[i as int].0@, fields@[i as int].1));
                assert(strings_view(out@) =~= strings_view(before).push(fields@[i as int].0@));
                assert(pf.take(i + 1).map_values(|f: (Seq<char>, bool)| f.0)
                    =~= pf.take(i as int).map_values(|f: (Seq<char>, bool)| f.0).push(pf[i as int].0));
            }
            i = i + 1;
        }
        proof {
            let pf = property_fields(self@.patterns);
            assert(pf.take(i as int) =~= pf);
        }
        out
    }

    /// Included tags with their values and sint flags; `values` is parallel
    /// to the patterns, and patterns that are not included or have no value
    /// are left out
    pub fn tag_values(&self, values: &Vec<Option<String>>) -> (r: Vec<(String, String, bool)>)
        ensures
            r@.map_values(|t: (String, String, bool)| (t.0@, t.1@, t.2)) == tagged_values(
                self@.patterns,
                values_view(values@),
                min_len(self@.patterns.len(), values@.len()),
            ),
    {
        let n = if self.patterns.len() < values.len() { self.patterns.len() } else { values.len() };
        let mut out: Vec<(String, String, bool)> = Vec::new();
        let mut i: usize = 0;
        while i < n
            invariant
                i <= n,
                n <= self.patterns@.len(),
                n <= values@.len(),
                out@.map_values(|t: (String, String, bool)| (t.0@, t.1@, t.2)) == tagged_values(
                    self@.patterns,
                    values_view(values@),
                    i as nat,
                ),
            decreases n - i,
        {
            let ghost before = out@;
            let pattern = &self.patterns[i];
            proof {
                assert(self@.patterns[i as int] == pattern@);
                assert(values_view(values@)[i as int] == match values@[i as int] { Some(s) => Some(s@), None => None });
            }
            if let Some(tag) = pattern.include_key() {
                match &values[i] {
                    Some(v) => {
                        out.push((tag.clone(), v.clone(), pattern.feature_type() == FeatureType::MvtSint));
                        proof {
                            assert(out@.map_values(|t: (String, String, bool)| (t.0@, t.1@, t.2))
                                =~= before.map_values(|t: (String, String, bool)| (t.0@, t.1@, t.2)).push(
                                (pattern@.tag, v@, pattern@.feature_type == FeatureType::MvtSint)));
                        }
                    },
                    None => {},
                }
            }
            i = i + 1;
        }
        out
    }

    /// Feature properties for the values of a feature; a sint value that is
    /// not an integer is dropped
    pub fn properties(&self, values: &Vec<Option<String>>) -> (r: Vec<Property>)
        ensures
            r@.map_values(|p: Property| p@) == properties_spec(
                tagged_values(
                    self@.patterns,
                    values_view(values@),
                    min_len(self@.patterns.len(), values@.len()),
                ),
            ),
    {
        let tv = self.tag_values(values);
        let ghost tvv = tv@.map_values(|t: (String, String, bool)| (t.0@, t.1@, t.2));
        let mut out: Vec<Property> = Vec::new();
        let mut i: usize = 0;
        while i < tv.len()
            invariant
                i <= tv@.len(),
                tvv == tv@.map_values(|t: (String, String, bool)| (t.0@, t.1@, t.2)),
                out@.map_values(|p: Property| p@) == properties_spec(tvv.take(i as int)),
            decreases tv@.len() - i,
        {
            proof {
                assert(tvv.take(i + 1).drop_last() =~= tvv.take(i as int));
                assert(tvv.take(i + 1).last() == tvv[i as int]);
            }
            let ghost before = out@;
            let (tag, value, sint) = &tv[i];
            if *sint {
                match parse_i64(value.as_str()) {
                    Some(n) => {
                        let p = Property { tag: tag.clone(), value: PropValue::Sint(n) };
                        out.push(p);
                        proof {
                            assert(out@.map_values(|p: Property| p@) =~= before.map_values(|p: Property| p@).push(p@));
                        }
                    },
                    None => {},
                }
            } else {
                let p = Property { tag: tag.clone(), value: PropValue::Str(value.clone()) };
                out.push(p);
                proof {
                    assert(out@.map_values(|p: Property| p@) =~= before.map_values(|p: Property| p@).push(p@));
                }
            }
            i = i + 1;
        }
        proof {
            assert(tvv.take(i as int) =~= tvv);
        }
        out
    }
}

} // verus!
