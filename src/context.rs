//! Variables, query paths, resolve ids, and the context a resolver runs in.

use crate::ast::{Directive, Field, SelectionSet, VariableDefinition, response_key};
use crate::span::{Pos, Spanned};
use crate::text::{eq_chars, eq_str, push_str, str_eq};
use crate::value::{key_pos, key_pos_from, keys_unique, same_value, Value};
use vstd::prelude::*;

verus! {

/// What went wrong while reading a query against its variables.
#[derive(Debug)]
pub enum QueryError {
    /// A `$name` was used that the operation neither received nor gave a default.
    VarNotDefined { var_name: String },
    /// A value could not be read as the type the position asks for.
    ExpectedType { expect: String, actual: Value },
    /// A directive was used without one of its required arguments.
    RequiredDirectiveArgs { directive: String, arg_name: String, arg_type: String },
    /// A directive that is not known.
    UnknownDirective { name: String },
}

/// A query error together with the position it refers to.
#[derive(Debug)]
pub struct Error {
    pub pos: Pos,
    pub err: QueryError,
}

impl QueryError {
    pub fn into_error(self, pos: Pos) -> (r: Error)
        ensures
            r.pos == pos,
            r.err == self,
    {
        Error { pos, err: self }
    }
}

/// The variables of a request: an object value keyed by variable name.
#[derive(Debug)]
pub struct Variables(pub Value);

impl Variables {
    /// The name/value pairs, in order.
    pub open spec fn fields(self) -> Seq<(Spanned<String>, Spanned<Value>)> {
        match self.0 {
            Value::Object(pairs) => pairs@,
            _ => Seq::empty(),
        }
    }

    /// The value is an object whose names are distinct.
    pub open spec fn wf(self) -> bool {
        self.0 is Object && keys_unique(self.fields())
    }

    /// The value bound to `name`, if any.
    pub open spec fn lookup(self, name: Seq<char>) -> Option<Value> {
        let p = key_pos(self.fields(), name);
        if p >= 0 {
            Some(self.fields()[p].1.node)
        } else {
            None
        }
    }

    /// No variables.
    pub fn new() -> (r: Variables)
        ensures
            r.wf(),
            r.fields().len() == 0,
    {
        Variables(Value::Object(Vec::new()))
    }

    /// Variables taken from an object value; any other value gives no variables.
    pub fn from_value(value: Value) -> (r: Variables)
        requires
            value is Object ==> keys_unique(value->Object_0@),
        ensures
            r.wf(),
            value is Object ==> r.0 == value,
            !(value is Object) ==> r.fields().len() == 0,
    {
        match value {
            Value::Object(pairs) => Variables(Value::Object(pairs)),
            _ => Variables::new(),
        }
    }

    /// The value of the variable `name`.
    pub fn get(&self, name: &String) -> (r: Option<&Value>)
        ensures
            match self.lookup(name@) {
                Some(v) => r == Some(&v),
                None => r is None,
            },
    {
        match &self.0 {
            Value::Object(pairs) => {
                let mut j: usize = 0;
                while j < pairs.len()
                    invariant
                        self.0 == Value::Object(*pairs),
                        0 <= j <= pairs@.len(),
                        key_pos(pairs@, name@) == key_pos_from(pairs@, name@, j as int),
                    decreases pairs@.len() - j,
                {
                    if str_eq(&pairs[j].0.node, name) {
                        return Some(&pairs[j].1.node);
                    }
                    j = j + 1;
                }
                None
            },
            _ => None,
        }
    }
}

impl Default for Variables {
    fn default() -> (r: Variables)
        ensures
            r.wf(),
            r.fields().len() == 0,
    {
        Variables::new()
    }
}

/// The first index at or after `i` that holds a dot, or the length if none does.
pub open spec fn dot_from(s: Seq<char>, i: int) -> int
    decreases s.len() - i,
{
    if i < 0 || i >= s.len() {
        s.len() as int
    } else if s[i] == '.' {
        i
    } else {
        dot_from(s, i + 1)
    }
}

proof fn lemma_dot_from_bounds(s: Seq<char>, i: int)
    requires
        0 <= i <= s.len(),
    ensures
        i <= dot_from(s, i) <= s.len(),
        forall|k: int| i <= k < dot_from(s, i) ==> s[k] != '.',
        dot_from(s, i) < s.len() ==> s[dot_from(s, i)] == '.',
    decreases s.len() - i,
{
    if i < s.len() && s[i] != '.' {
        lemma_dot_from_bounds(s, i + 1);
    }
}

/// The dot-separated segments of `s` from index `i` on.
pub open spec fn segments_from(s: Seq<char>, i: int) -> Seq<Seq<char>>
    decreases s.len() - i,
{
    let d = dot_from(s, i);
    if i < 0 || i > s.len() || d < i || d >= s.len() {
        seq![s.subrange(i, s.len() as int)]
    } else {
        seq![s.subrange(i, d)] + segments_from(s, d + 1)
    }
}

/// The dot-separated segments of a path.
pub open spec fn path_segments(s: Seq<char>) -> Seq<Seq<char>> {
    segments_from(s, 0)
}

/// Splits a path at its dots.
fn split_path(path: &str) -> (r: Vec<String>)
    ensures
        r@.len() == path_segments(path@).len(),
        forall|k: int| 0 <= k < r@.len() ==> #[trigger] r@[k]@ == path_segments(path@)[k],
{
    let n = path.unicode_len();
    let mut out: Vec<String> = Vec::new();
    let mut start: usize = 0;
    let mut i: usize = 0;
    proof { lemma_dot_from_bounds(path@, 0); }
    while i < n
        invariant
            n == path@.len(),
            0 <= start <= i <= n,
            dot_from(path@, start as int) == dot_from(path@, i as int),
            out@.len() + segments_from(path@, start as int).len() == path_segments(path@).len(),
            forall|k: int| 0 <= k < out@.len() ==> #[trigger] out@[k]@ == path_segments(path@)[k],
            forall|k: int|
                0 <= k < segments_from(path@, start as int).len() ==> path_segments(path@)[out@.len() + k]
                    == #[trigger] segments_from(path@, start as int)[k],
        decreases n - i,
    {
        proof { lemma_dot_from_bounds(path@, i as int); }
        if path.get_char(i) == '.' {
            let seg = String::from_str(path.substring_char(start, i));
            proof {
                lemma_dot_from_bounds(path@, start as int);
                let rest = segments_from(path@, i as int + 1);
                assert(segments_from(path@, start as int) == seq![path@.subrange(start as int, i as int)] + rest);
                assert forall|k: int| 0 <= k < rest.len() implies path_segments(path@)[out@.len() + 1 + k]
                    == #[trigger] rest[k] by {
                    assert(segments_from(path@, start as int)[k + 1] == rest[k]);
                }
            }
            proof {
                assert(path_segments(path@)[out@.len() as int] == segments_from(path@, start as int)[0]);
            }
            out.push(seg);
            start = i + 1;
            proof { lemma_dot_from_bounds(path@, start as int); }
        } else {
            proof {
                if dot_from(path@, i as int) == i {
                    lemma_dot_from_bounds(path@, i as int);
                }
            }
        }
        i = i + 1;
    }
    proof { lemma_dot_from_bounds(path@, start as int); }
    let seg = String::from_str(path.substring_char(start, n));
    proof {
        assert(segments_from(path@, start as int) == seq![path@.subrange(start as int, n as int)]);
        assert(path_segments(path@)[out@.len() as int] == segments_from(path@, start as int)[0]);
    }
    out.push(seg);
    out
}

/// A segment that names a list position: one or more ASCII digits.
pub open spec fn is_index_segment(s: Seq<char>) -> bool {
    s.len() > 0 && forall|k: int| 0 <= k < s.len() ==> '0' <= #[trigger] s[k] <= '9'
}

/// The number written by the first `n` digits of `s`.
pub open spec fn digits_value(s: Seq<char>, n: int) -> nat
    decreases n,
{
    if n <= 0 || n > s.len() {
        0
    } else {
        digits_value(s, n - 1) * 10 + ((s[n - 1] as nat) - 48) as nat
    }
}

/// The list position an index segment names.
pub open spec fn index_of_segment(s: Seq<char>) -> nat {
    digits_value(s, s.len() as int)
}

/// Whether a segment is made of digits only.
fn all_digits(seg: &String) -> (r: bool)
    ensures
        r == is_index_segment(seg@),
{
    let s = seg.as_str();
    let n = s.unicode_len();
    if n == 0 {
        return false;
    }
    let mut i: usize = 0;
    while i < n
        invariant
            s@ == seg@,
            n == seg@.len(),
            0 <= i <= n,
            forall|k: int| 0 <= k < i ==> '0' <= #[trigger] seg@[k] <= '9',
        decreases n - i,
    {
        let c = s.get_char(i);
        if !('0' <= c && c <= '9') {
            return false;
        }
        i = i + 1;
    }
    true
}

/// Reads an index segment, if it names a position below `bound`.
fn segment_index(seg: &String, bound: usize) -> (r: Option<usize>)
    ensures
        match r {
            Some(i) => is_index_segment(seg@) && i == index_of_segment(seg@) && i < bound,
            None => !is_index_segment(seg@) || index_of_segment(seg@) >= bound,
        },
{
    if !all_digits(seg) || bound == 0 {
        return None;
    }
    let s = seg.as_str();
    let n = s.unicode_len();
    let mut acc: usize = 0;
    let mut i: usize = 0;
    while i < n
        invariant
            s@ == seg@,
            n == seg@.len(),
            0 <= i <= n,
            acc == digits_value(seg@, i as int),
            acc < bound,
            is_index_segment(seg@),
        decreases n - i,
    {
        let c = s.get_char(i);
        assert('0' <= seg@[i as int] <= '9');
        let d: usize = ((c as u32) - 48) as usize;
        assert(digits_value(seg@, i as int + 1) == acc * 10 + d);
        if d >= bound || acc > (bound - 1 - d) / 10 {
            proof {
                assert(acc * 10 + d >= bound) by (nonlinear_arith)
                    requires d >= bound || acc > (bound - 1 - d) / 10, d <= 9, acc >= 0;
                lemma_digits_grow(seg@, i as int + 1, n as int);
            }
            return None;
        }
        proof {
            assert(acc * 10 + d < bound) by (nonlinear_arith)
                requires acc <= (bound - 1 - d) / 10, d < bound, d <= 9;
        }
        acc = acc * 10 + d;
        i = i + 1;
    }
    Some(acc)
}

proof fn lemma_digits_grow(s: Seq<char>, i: int, n: int)
    requires
        0 <= i <= n <= s.len(),
        forall|k: int| 0 <= k < n ==> '0' <= #[trigger] s[k] <= '9',
    ensures
        digits_value(s, i) <= digits_value(s, n),
    decreases n - i,
{
    if i < n {
        lemma_digits_grow(s, i + 1, n);
        assert(digits_value(s, i + 1) == digits_value(s, i) * 10 + ((s[i] as nat) - 48) as nat);
    }
}

/// `new` is `old` with the value that `segs` leads to replaced by the string `leaf`;
/// where the path cannot be followed, `new` is `old`.
pub open spec fn upload_applied(old: Value, new: Value, segs: Seq<Seq<char>>, leaf: Seq<char>) -> bool
    decreases segs.len(),
{
    if segs.len() == 0 {
        new == old
    } else {
        let seg = segs[0];
        let last = segs.len() == 1;
        match old {
            Value::List(x) => {
                if is_index_segment(seg) && index_of_segment(seg) < x@.len() {
                    let i = index_of_segment(seg) as int;
                    &&& new is List
                    &&& new->List_0@.len() == x@.len()
                    &&& forall|j: int| 0 <= j < x@.len() && j != i ==> new->List_0@[j] == x@[j]
                    &&& new->List_0@[i].span == x@[i].span
                    &&& if last {
                        new->List_0@[i].node is String && new->List_0@[i].node->String_0@ == leaf
                    } else {
                        upload_applied(x@[i].node, new->List_0@[i].node, segs.drop_first(), leaf)
                    }
                } else {
                    new == old
                }
            },
            Value::Object(x) => {
                let p = key_pos(x@, seg);
                if !is_index_segment(seg) && p >= 0 {
                    &&& new is Object
                    &&& new->Object_0@.len() == x@.len()
                    &&& forall|j: int| 0 <= j < x@.len() && j != p ==> new->Object_0@[j] == x@[j]
                    &&& new->Object_0@[p].0 == x@[p].0
                    &&& new->Object_0@[p].1.span == x@[p].1.span
                    &&& if last {
                        new->Object_0@[p].1.node is String && new->Object_0@[p].1.node->String_0@ == leaf
                    } else {
                        upload_applied(x@[p].1.node, new->Object_0@[p].1.node, segs.drop_first(), leaf)
                    }
                } else {
                    new == old
                }
            },
            _ => new == old,
        }
    }
}

pub(crate) fn find_key(pairs: &Vec<(Spanned<String>, Spanned<Value>)>, name: &String) -> (r: Option<usize>)
    ensures
        match r {
            Some(p) => p == key_pos(pairs@, name@) && 0 <= p < pairs@.len(),
            None => key_pos(pairs@, name@) == -1,
        },
{
    let mut j: usize = 0;
    while j < pairs.len()
        invariant
            0 <= j <= pairs@.len(),
            key_pos(pairs@, name@) == key_pos_from(pairs@, name@, j as int),
        decreases pairs@.len() - j,
    {
        if str_eq(&pairs[j].0.node, name) {
            return Some(j);
        }
        j = j + 1;
    }
    None
}

/// Follows `segs[k..]` into `v` and puts the string `leaf` where it leads.
fn upload_into(v: Value, segs: &Vec<String>, k: usize, leaf: &String) -> (r: Value)
    requires
        k <= segs@.len(),
    ensures
        upload_applied(v, r, segs@.subrange(k as int, segs@.len() as int).map_values(|s: String| s@), leaf@),
    decreases segs@.len() - k,
{
    let ghost rest = segs@.subrange(k as int, segs@.len() as int).map_values(|s: String| s@);
    if k == segs.len() {
        return v;
    }
    let last = k + 1 == segs.len();
    proof {
        assert(rest[0] == segs@[k as int]@);
        assert(rest.drop_first() =~= segs@.subrange(k as int + 1, segs@.len() as int).map_values(|s: String| s@));
    }
    match v {
        Value::List(mut x) => {
            match segment_index(&segs[k], x.len()) {
                Some(i) => {
                    let ghost x0 = x@;
                    let item = x.remove(i);
                    let node = if last {
                        Value::String(leaf.clone())
                    } else {
                        upload_into(item.node, segs, k + 1, leaf)
                    };
                    let elem = Spanned { span: item.span, node };
                    let ghost ge = elem;
                    x.insert(i, elem);
                    proof { assert(x@ =~= x0.update(i as int, ge)); }
                    Value::List(x)
                },
                None => Value::List(x),
            }
        },
        Value::Object(mut x) => {
            if all_digits(&segs[k]) {
                return Value::Object(x);
            }
            match find_key(&x, &segs[k]) {
                Some(p) => {
                    let ghost x0 = x@;
                    let (name, item) = x.remove(p);
                    let node = if last {
                        Value::String(leaf.clone())
                    } else {
                        upload_into(item.node, segs, k + 1, leaf)
                    };
                    let elem = (name, Spanned { span: item.span, node });
                    let ghost ge = elem;
                    x.insert(p, elem);
                    proof { assert(x@ =~= x0.update(p as int, ge)); }
                    Value::Object(x)
                },
                None => Value::Object(x),
            }
        },
        other => other,
    }
}

/// The characters of an optional string.
pub open spec fn opt_text(o: Option<&str>) -> Option<Seq<char>> {
    match o {
        Some(c) => Some(c@),
        None => None,
    }
}

/// The text that stands for an uploaded file:
/// `file:<filename>[:<content type>]|<local path>`.
pub open spec fn file_text(filename: Seq<char>, content_type: Option<Seq<char>>, path: Seq<char>) -> Seq<char> {
    match content_type {
        Some(ct) => "file:"@ + filename + ":"@ + ct + "|"@ + path,
        None => "file:"@ + filename + "|"@ + path,
    }
}

/// The text that stands for an uploaded file.
pub fn file_string(filename: &str, content_type: Option<&str>, path: &str) -> (r: String)
    ensures
        r@ == file_text(filename@, opt_text(content_type), path@),
{
    let mut s = String::from_str("file:");
    push_str(&mut s, filename);
    match content_type {
        Some(ct) => {
            push_str(&mut s, ":");
            push_str(&mut s, ct);
        },
        None => {},
    }
    push_str(&mut s, "|");
    push_str(&mut s, path);
    proof {
        reveal_strlit("file:");
        reveal_strlit(":");
        reveal_strlit("|");
        match content_type {
            Some(ct) => {
                assert(s@ =~= file_text(filename@, opt_text(content_type), path@));
            },
            None => {
                assert(s@ =~= file_text(filename@, opt_text(content_type), path@));
            },
        }
    }
    s
}

impl Variables {
    /// Puts the text standing for an uploaded file at `var_path`, a dotted path
    /// that starts with `variables` and goes on with field names and list
    /// positions. Where the path cannot be followed nothing changes.
    pub fn set_upload(&mut self, var_path: &str, filename: &str, content_type: Option<&str>, path: &str)
        requires
            old(self).wf(),
        ensures
            final(self).wf(),
            ({
                let segs = path_segments(var_path@);
                let leaf = file_text(filename@, opt_text(content_type), path@);
                if segs[0] == "variables"@ {
                    upload_applied(old(self).0, final(self).0, segs.drop_first(), leaf)
                } else {
                    final(self).0 == old(self).0
                }
            }),
    {
        let segs = split_path(var_path);
        proof { reveal_strlit("variables"); }
        if !eq_str(&segs[0], "variables") {
            return;
        }
        let leaf = file_string(filename, content_type, path);
        let mut v = Value::Null;
        std::mem::swap(&mut v, &mut self.0);
        let r = upload_into(v, &segs, 1, &leaf);
        proof {
            assert(segs@.subrange(1, segs@.len() as int).map_values(|s: String| s@)
                =~= path_segments(var_path@).drop_first());
        }
        self.0 = r;
        proof { lemma_upload_keeps_wf(v, r, path_segments(var_path@).drop_first(), leaf@); }
    }
}

proof fn lemma_upload_keeps_wf(old: Value, new: Value, segs: Seq<Seq<char>>, leaf: Seq<char>)
    requires
        upload_applied(old, new, segs, leaf),
        old is Object ==> keys_unique(old->Object_0@),
        old is Object || segs.len() == 0,
    ensures
        old is Object ==> new is Object && keys_unique(new->Object_0@),
{
    if segs.len() > 0 {
        if let Value::Object(x) = old {
            let p = key_pos(x@, segs[0]);
            if !is_index_segment(segs[0]) && p >= 0 {
                assert forall|i: int, j: int| 0 <= i < j < new->Object_0@.len() implies
                    new->Object_0@[i].0.node@ != new->Object_0@[j].0.node@ by {
                    assert(new->Object_0@[i].0 == x@[i].0);
                    assert(new->Object_0@[j].0 == x@[j].0);
                }
            }
        }
    }
}

/// One step of a query path: a list position or a response key.
#[derive(Clone, Copy, Debug, PartialEq, Eq)]
pub enum QueryPathSegment<'a> {
    Index(usize),
    Name(&'a str),
}

/// A node of a query path, linked to the node above it.
#[derive(Clone, Copy, Debug)]
pub struct QueryPathNode<'a> {
    pub parent: Option<&'a QueryPathNode<'a>>,
    pub segment: QueryPathSegment<'a>,
}

/// The segments of the path that ends at `n`, root first.
pub open spec fn path_of<'a>(n: QueryPathNode<'a>) -> Seq<QueryPathSegment<'a>>
    decreases n,
{
    match n.parent {
        Some(p) => path_of(*p) + seq![n.segment],
        None => seq![n.segment],
    }
}

/// The segments of an optional path, root first.
pub open spec fn opt_path<'a>(n: Option<QueryPathNode<'a>>) -> Seq<QueryPathSegment<'a>> {
    match n {
        Some(n) => path_of(n),
        None => Seq::empty(),
    }
}

/// The last name on the path that ends at `n`, if there is one.
pub open spec fn nearest_name<'a>(n: QueryPathNode<'a>) -> Option<Seq<char>>
    decreases n,
{
    match n.segment {
        QueryPathSegment::Name(s) => Some(s@),
        QueryPathSegment::Index(_) => match n.parent {
            Some(p) => nearest_name(*p),
            None => None,
        },
    }
}

/// The text of one segment.
pub open spec fn segment_text(s: QueryPathSegment) -> Seq<char> {
    match s {
        QueryPathSegment::Index(i) => crate::text::decimal_text(i as nat),
        QueryPathSegment::Name(n) => n@,
    }
}

/// The segments joined by dots.
pub open spec fn path_text(segs: Seq<QueryPathSegment>) -> Seq<char>
    decreases segs.len(),
{
    if segs.len() == 0 {
        Seq::empty()
    } else if segs.len() == 1 {
        segment_text(segs[0])
    } else {
        path_text(segs.drop_last()) + seq!['.'] + segment_text(segs.last())
    }
}

impl<'a> QueryPathNode<'a> {
    /// The name of the nearest field on the path, looking upwards from this node.
    pub fn field_name(&self) -> (r: &'a str)
        requires
            nearest_name(*self) is Some,
        ensures
            r@ == nearest_name(*self)->0,
        decreases *self,
    {
        match self.segment {
            QueryPathSegment::Name(name) => name,
            QueryPathSegment::Index(_) => match self.parent {
                Some(p) => p.field_name(),
                None => "",
            },
        }
    }

    /// The segments of the path, root first.
    pub fn segments(&self) -> (r: Vec<QueryPathSegment<'a>>)
        ensures
            r@ == path_of(*self),
        decreases *self,
    {
        match self.parent {
            Some(p) => {
                let mut v = p.segments();
                v.push(self.segment);
                v
            },
            None => {
                let mut v = Vec::new();
                v.push(self.segment);
                proof { assert(v@ =~= seq![self.segment]); }
                v
            },
        }
    }

    /// The path written with dots between its segments: `a.b.0.c`.
    pub fn path_string(&self) -> (r: String)
        ensures
            r@ == path_text(path_of(*self)),
    {
        let segs = self.segments();
        let mut s = String::new();
        let mut i: usize = 0;
        while i < segs.len()
            invariant
                0 <= i <= segs@.len(),
                s@ == path_text(segs@.subrange(0, i as int)),
            decreases segs@.len() - i,
        {
            if i > 0 {
                push_str(&mut s, ".");
            }
            match segs[i] {
                QueryPathSegment::Index(idx) => {
                    let t = crate::text::u64_to_string(idx as u64);
                    push_str(&mut s, t.as_str());
                },
                QueryPathSegment::Name(n) => push_str(&mut s, n),
            }
            proof {
                reveal_strlit(".");
                let pre = segs@.subrange(0, i as int + 1);
                assert(pre.drop_last() =~= segs@.subrange(0, i as int));
                if i == 0 {
                    assert(s@ =~= path_text(pre));
                } else {
                    assert(s@ =~= path_text(pre));
                }
            }
            i = i + 1;
        }
        proof { assert(segs@.subrange(0, segs@.len() as int) =~= segs@); }
        s
    }
}

/// The identity of one resolution: its own number and that of the resolution
/// it was started from.
#[derive(Clone, Copy, Debug, PartialEq, Eq, Structural)]
pub struct ResolveId {
    pub parent: Option<usize>,
    pub current: usize,
}

impl ResolveId {
    /// The id of the operation's root.
    pub fn root() -> (r: ResolveId)
        ensures
            r.parent is None,
            r.current == 0,
    {
        ResolveId { parent: None, current: 0 }
    }

    /// `current`, or `parent:current` when there is a parent.
    pub fn id_string(&self) -> (r: String)
        ensures
            r@ == match self.parent {
                Some(p) => crate::text::decimal_text(p as nat) + seq![':'] + crate::text::decimal_text(
                    self.current as nat,
                ),
                None => crate::text::decimal_text(self.current as nat),
            },
    {
        let cur = crate::text::u64_to_string(self.current as u64);
        match self.parent {
            Some(p) => {
                let mut s = crate::text::u64_to_string(p as u64);
                push_str(&mut s, ":");
                push_str(&mut s, cur.as_str());
                proof { reveal_strlit(":"); }
                s
            },
            None => cur,
        }
    }
}

/// Hands out the ids of one execution: 1, 2, 3, ... in turn, each recorded
/// with the id of the resolution it was started from.
pub struct ResolveIdCounter {
    last: usize,
    issued: Ghost<Seq<ResolveId>>,
}

impl ResolveIdCounter {
    /// The ids handed out so far, in order.
    pub closed spec fn issued(self) -> Seq<ResolveId> {
        self.issued@
    }

    /// The last id handed out; the root counts as 0.
    pub closed spec fn last(self) -> nat {
        self.last as nat
    }

    /// The k-th id handed out is `k + 1`, and its parent is the root or an id handed out before it.
    pub open spec fn wf(self) -> bool {
        &&& self.issued().len() == self.last()
        &&& forall|k: int|
            #![trigger self.issued()[k]]
            0 <= k < self.issued().len() ==> {
                &&& self.issued()[k].current == k + 1
                &&& self.issued()[k].parent is Some
                &&& self.issued()[k].parent->0 <= k
            }
    }

    /// Whether `id` is the root or was handed out.
    pub open spec fn is_issued(self, id: usize) -> bool {
        id <= self.last()
    }

    pub fn new() -> (r: ResolveIdCounter)
        ensures
            r.wf(),
            r.last() == 0,
    {
        ResolveIdCounter { last: 0, issued: Ghost(Seq::empty()) }
    }

    /// How many ids were handed out.
    pub fn count(&self) -> (r: usize)
        ensures
            r == self.last(),
    {
        self.last
    }

    /// Hands out a new id whose parent is `parent`.
    pub fn child_of(&mut self, parent: ResolveId) -> (r: ResolveId)
        requires
            old(self).wf(),
            old(self).is_issued(parent.current),
            old(self).last() < usize::MAX,
        ensures
            final(self).wf(),
            r.parent == Some(parent.current),
            r.current == old(self).last() + 1,
            !old(self).is_issued(r.current),
            final(self).issued() == old(self).issued().push(r),
            final(self).last() == old(self).last() + 1,
    {
        let id = self.last + 1;
        let r = ResolveId { parent: Some(parent.current), current: id };
        self.last = id;
        self.issued = Ghost(self.issued@.push(r));
        proof {
            assert forall|k: int| #![trigger self.issued()[k]] 0 <= k < self.issued().len() implies {
                &&& self.issued()[k].current == k + 1
                &&& self.issued()[k].parent is Some
                &&& self.issued()[k].parent->0 <= k
            } by {
                if k < self.issued().len() - 1 {
                    assert(self.issued()[k] == old(self).issued()[k]);
                }
            }
        }
        r
    }
}

/// Within one execution every id handed out is new, and every parent is the
/// root or an id handed out earlier.
pub proof fn lemma_resolve_ids_unique(c: ResolveIdCounter)
    requires
        c.wf(),
    ensures
        forall|i: int, j: int|
            0 <= i < j < c.issued().len() ==> #[trigger] c.issued()[i].current != #[trigger] c.issued()[j].current,
        forall|j: int|
            0 <= j < c.issued().len() ==> {
                let p = (#[trigger] c.issued()[j]).parent->0;
                p == 0 || exists|i: int| 0 <= i < j && c.issued()[i].current == p
            },
{
    assert forall|j: int| 0 <= j < c.issued().len() implies {
        let p = (#[trigger] c.issued()[j]).parent->0;
        p == 0 || exists|i: int| 0 <= i < j && c.issued()[i].current == p
    } by {
        let p = c.issued()[j].parent->0;
        if p != 0 {
            assert(c.issued()[p - 1].current == p);
        }
    }
}

/// The first definition of the variable `name`, or -1.
pub open spec fn def_pos_from(defs: Seq<Spanned<VariableDefinition>>, name: Seq<char>, start: int) -> int
    decreases defs.len() - start,
{
    if start < 0 || start >= defs.len() {
        -1
    } else if defs[start].node.name.node@ == name {
        start
    } else {
        def_pos_from(defs, name, start + 1)
    }
}

pub open spec fn def_pos(defs: Seq<Spanned<VariableDefinition>>, name: Seq<char>) -> int {
    def_pos_from(defs, name, 0)
}

/// The value a variable stands for: the one received if any, else the
/// declared default. Undeclared variables stand for nothing.
pub open spec fn var_binding(vars: Variables, defs: Seq<Spanned<VariableDefinition>>, name: Seq<char>) -> Option<Value> {
    let d = def_pos(defs, name);
    if d < 0 {
        None
    } else {
        match vars.lookup(name) {
            Some(v) => Some(v),
            None => match defs[d].node.default_value {
                Some(dv) => Some(dv.node),
                None => None,
            },
        }
    }
}

/// Every variable inside `v` stands for a value.
pub open spec fn all_vars_bound(v: Value, vars: Variables, defs: Seq<Spanned<VariableDefinition>>) -> bool
    decreases v,
{
    match v {
        Value::Variable(n) => var_binding(vars, defs, n@) is Some,
        Value::List(x) => forall|i: int|
            #![trigger x@[i]]
            0 <= i < x@.len() ==> all_vars_bound(x@[i].node, vars, defs),
        Value::Object(x) => forall|i: int|
            #![trigger x@[i]]
            0 <= i < x@.len() ==> all_vars_bound(x@[i].1.node, vars, defs),
        _ => true,
    }
}

/// When `v` is itself a variable, `name` is that variable and it stands for
/// nothing.
pub open spec fn unbound_in(v: Value, name: Seq<char>, vars: Variables, defs: Seq<Spanned<VariableDefinition>>) -> bool {
    match v {
        Value::Variable(n) => n@ == name && var_binding(vars, defs, name) is None,
        _ => true,
    }
}

/// `r` is `v` with every variable replaced by the value it stands for.
pub open spec fn resolved(v: Value, r: Value, vars: Variables, defs: Seq<Spanned<VariableDefinition>>) -> bool
    decreases v,
{
    match v {
        Value::Variable(n) => match var_binding(vars, defs, n@) {
            Some(b) => same_value(r, b),
            None => false,
        },
        Value::List(x) => {
            &&& r is List
            &&& r->List_0@.len() == x@.len()
            &&& forall|i: int|
                #![trigger x@[i]]
                0 <= i < x@.len() ==> r->List_0@[i].span == x@[i].span && resolved(
                    x@[i].node,
                    r->List_0@[i].node,
                    vars,
                    defs,
                )
        },
        Value::Object(x) => {
            &&& r is Object
            &&& r->Object_0@.len() == x@.len()
            &&& forall|i: int|
                #![trigger x@[i]]
                0 <= i < x@.len() ==> r->Object_0@[i].0 == x@[i].0 && r->Object_0@[i].1.span == x@[i].1.span
                    && resolved(x@[i].1.node, r->Object_0@[i].1.node, vars, defs)
        },
        _ => same_value(r, v),
    }
}

/// The kinds of query error.
#[derive(PartialEq, Eq, Structural, Clone, Copy, Debug)]
pub enum ErrorKind {
    VarNotDefined,
    ExpectedType,
    RequiredDirectiveArgs,
    UnknownDirective,
}

pub open spec fn kind_of(e: QueryError) -> ErrorKind {
    match e {
        QueryError::VarNotDefined { .. } => ErrorKind::VarNotDefined,
        QueryError::ExpectedType { .. } => ErrorKind::ExpectedType,
        QueryError::RequiredDirectiveArgs { .. } => ErrorKind::RequiredDirectiveArgs,
        QueryError::UnknownDirective { .. } => ErrorKind::UnknownDirective,
    }
}

/// The boolean an `if:` argument comes to, if it comes to one.
pub open spec fn resolved_bool(v: Value, vars: Variables, defs: Seq<Spanned<VariableDefinition>>) -> Option<bool> {
    match v {
        Value::Boolean(b) => Some(b),
        Value::Variable(n) => match var_binding(vars, defs, n@) {
            Some(Value::Boolean(b)) => Some(b),
            _ => None,
        },
        _ => None,
    }
}

/// The name of the directive that keeps an item only while its `if:` argument is true.
pub open spec fn keep_directive_name() -> Seq<char> {
    seq!['i', 'n', 'c', 'l', 'u', 'd', 'e']
}

/// What one directive decides: `Ok(true)` to leave the field out, `Ok(false)` to go on.
pub open spec fn directive_skips(d: Directive, vars: Variables, defs: Seq<Spanned<VariableDefinition>>) -> Result<bool, ErrorKind> {
    if d.name.node@ == "skip"@ || d.name.node@ == keep_directive_name() {
        let p = key_pos(d.arguments@, "if"@);
        if p < 0 {
            Err(ErrorKind::RequiredDirectiveArgs)
        } else {
            let v = d.arguments@[p].1.node;
            if !all_vars_bound(v, vars, defs) {
                Err(ErrorKind::VarNotDefined)
            } else {
                match resolved_bool(v, vars, defs) {
                    Some(b) => Ok(if d.name.node@ == "skip"@ { b } else { !b }),
                    None => Err(ErrorKind::ExpectedType),
                }
            }
        }
    } else {
        Err(ErrorKind::UnknownDirective)
    }
}

/// What the directives from index `i` on decide, read in order: the first
/// error or the first directive that leaves the field out settles it.
pub open spec fn skip_from(ds: Seq<Spanned<Directive>>, i: int, vars: Variables, defs: Seq<Spanned<VariableDefinition>>) -> Result<bool, ErrorKind>
    decreases ds.len() - i,
{
    if i < 0 || i >= ds.len() {
        Ok(false)
    } else {
        match directive_skips(ds[i].node, vars, defs) {
            Ok(true) => Ok(true),
            Ok(false) => skip_from(ds, i + 1, vars, defs),
            Err(k) => Err(k),
        }
    }
}

/// `r` is what reading the argument value `v` as a `V` gives, errors
/// reported where the argument starts: an error naming the variable if one
/// in it stands for nothing; else, with its variables replaced, the value it
/// reads as, or an error naming the type and holding that value.
pub open spec fn arg_read<V: InputValueType>(v: Spanned<Value>, vars: Variables, defs: Seq<Spanned<VariableDefinition>>, r: Result<V, Error>) -> bool {
    &&& !all_vars_bound(v.node, vars, defs) ==> (r matches Err(e) && e.pos == v.span.start && (e.err matches QueryError::VarNotDefined {
        var_name } && unbound_in(v.node, var_name@, vars, defs)))
    &&& all_vars_bound(v.node, vars, defs) ==> exists|rv: Value| #[trigger] resolved(v.node, rv, vars, defs) && value_read::<V>(rv, v.span.start, r)
}

/// `r` is what reading the value `rv` as a `V` gives: the value `V::parse`
/// gives, or an error at `pos` naming the type and holding `rv`.
pub open spec fn value_read<V: InputValueType>(rv: Value, pos: Pos, r: Result<V, Error>) -> bool {
    match V::parse_spec(rv) {
        Some(p) => r matches Ok(x) && V::repr(x) == p,
        None => r matches Err(e) && e.pos == pos && (e.err matches QueryError::ExpectedType { expect, actual }
            && expect@ == V::type_name_spec() && actual == rv),
    }
}

/// Where the directives from index `i` on stop being read: the first one that
/// leaves the item out or cannot be read, or the end.
pub open spec fn skip_stop(ds: Seq<Spanned<Directive>>, i: int, vars: Variables, defs: Seq<Spanned<VariableDefinition>>) -> int
    decreases ds.len() - i,
{
    if i < 0 || i >= ds.len() {
        ds.len() as int
    } else {
        match directive_skips(ds[i].node, vars, defs) {
            Ok(false) => skip_stop(ds, i + 1, vars, defs),
            _ => i,
        }
    }
}

/// The error `e` is the one the directive `d` gives: an unknown directive
/// names itself; a missing `if:` names the directive, the argument and its
/// type; an `if:` that is not a boolean gives the expected type and what the
/// argument came to; these three at the directive. An unbound variable is
/// reported at the argument.
pub open spec fn directive_error(d: Spanned<Directive>, vars: Variables, defs: Seq<Spanned<VariableDefinition>>, e: Error) -> bool {
    let args = d.node.arguments@;
    let p = key_pos(args, "if"@);
    match e.err {
        QueryError::UnknownDirective { name } => name@ == d.node.name.node@ && e.pos == d.span.start,
        QueryError::RequiredDirectiveArgs { directive, arg_name, arg_type } => {
            &&& directive@ == "@"@ + d.node.name.node@
            &&& arg_name@ == "if"@
            &&& arg_type@ == "Boolean!"@
            &&& e.pos == d.span.start
        },
        QueryError::ExpectedType { expect, actual } => {
            &&& expect@ == "Boolean!"@
            &&& p >= 0
            &&& resolved(args[p].1.node, actual, vars, defs)
            &&& e.pos == d.span.start
        },
        QueryError::VarNotDefined { var_name } => p >= 0 && e.pos == args[p].1.span.start && unbound_in(
            args[p].1.node,
            var_name@,
            vars,
            defs,
        ),
    }
}

/// A value read as an argument: implemented by the types a resolver can take.
pub trait InputValueType: Sized {
    /// What a value of the type is, as far as its contract says.
    type Repr;

    spec fn repr(x: Self) -> Self::Repr;

    /// What `v` reads as, or `None` when it cannot be read as this type.
    spec fn parse_spec(v: Value) -> Option<Self::Repr>;

    /// The GraphQL name of the type, with `!` where null is refused.
    spec fn type_name_spec() -> Seq<char>;

    fn qualified_type_name() -> (r: String)
        ensures
            r@ == Self::type_name_spec();

    fn parse(value: &Value) -> (r: Option<Self>)
        ensures
            r is Some <==> Self::parse_spec(*value) is Some,
            r matches Some(x) ==> Self::repr(x) == Self::parse_spec(*value)->0;
}

impl InputValueType for bool {
    type Repr = bool;

    open spec fn repr(x: bool) -> bool {
        x
    }

    open spec fn parse_spec(v: Value) -> Option<bool> {
        match v {
            Value::Boolean(b) => Some(b),
            _ => None,
        }
    }

    open spec fn type_name_spec() -> Seq<char> {
        "Boolean!"@
    }

    fn qualified_type_name() -> (r: String) {
        proof { reveal_strlit("Boolean!"); }
        String::from_str("Boolean!")
    }

    fn parse(value: &Value) -> (r: Option<bool>) {
        match value {
            Value::Boolean(b) => Some(*b),
            _ => None,
        }
    }
}

impl InputValueType for i32 {
    type Repr = i32;

    open spec fn repr(x: i32) -> i32 {
        x
    }

    open spec fn parse_spec(v: Value) -> Option<i32> {
        match v {
            Value::Int(n) => if i32::MIN <= n <= i32::MAX { Some(n as i32) } else { None },
            _ => None,
        }
    }

    open spec fn type_name_spec() -> Seq<char> {
        "Int!"@
    }

    fn qualified_type_name() -> (r: String) {
        proof { reveal_strlit("Int!"); }
        String::from_str("Int!")
    }

    fn parse(value: &Value) -> (r: Option<i32>) {
        match value {
            Value::Int(n) => if i32::MIN as i64 <= *n && *n <= i32::MAX as i64 {
                Some(*n as i32)
            } else {
                None
            },
            _ => None,
        }
    }
}

impl InputValueType for String {
    type Repr = Seq<char>;

    open spec fn repr(x: String) -> Seq<char> {
        x@
    }

    open spec fn parse_spec(v: Value) -> Option<Seq<char>> {
        match v {
            Value::String(s) => Some(s@),
            _ => None,
        }
    }

    open spec fn type_name_spec() -> Seq<char> {
        "String!"@
    }

    fn qualified_type_name() -> (r: String) {
        proof { reveal_strlit("String!"); }
        String::from_str("String!")
    }

    fn parse(value: &Value) -> (r: Option<String>) {
        match value {
            Value::String(s) => Some(s.clone()),
            _ => None,
        }
    }
}

/// The state a resolution runs in: where it stands in the response, its id,
/// the query item it works on, the operation's variables, the document's
/// fragments and the schema's types.
pub struct ContextBase<'a, T> {
    pub path_node: Option<QueryPathNode<'a>>,
    pub resolve_id: ResolveId,
    pub item: T,
    pub variables: &'a Variables,
    pub variable_definitions: &'a [Spanned<VariableDefinition>],
    pub fragments: &'a [Spanned<crate::ast::FragmentDefinition>],
    pub registry: &'a crate::registry::Registry,
}

/// The context of a field's resolver.
pub type Context<'a> = ContextBase<'a, &'a Spanned<Field>>;

/// The context of a selection set.
pub type ContextSelectionSet<'a> = ContextBase<'a, &'a Spanned<SelectionSet>>;

/// The per-request inputs a context is built from: variables, their
/// definitions and the document's fragments.
pub struct Environment {
    pub variables: Variables,
    pub variable_definitions: Vec<Spanned<VariableDefinition>>,
    pub fragments: Vec<Spanned<crate::ast::FragmentDefinition>>,
}

impl Environment {
    /// The root context of an execution over `item`.
    pub fn create_context<'a, T>(&'a self, registry: &'a crate::registry::Registry, path_node: Option<QueryPathNode<'a>>, item: T) -> (r: ContextBase<'a, T>)
        ensures
            r.path_node == path_node,
            r.resolve_id == (ResolveId { parent: None, current: 0 }),
            r.item == item,
            r.variables == &self.variables,
            r.variable_definitions@ == self.variable_definitions@,
            r.fragments@ == self.fragments@,
            r.registry == registry,
    {
        ContextBase {
            path_node,
            resolve_id: ResolveId::root(),
            item,
            variables: &self.variables,
            variable_definitions: self.variable_definitions.as_slice(),
            fragments: self.fragments.as_slice(),
            registry,
        }
    }
}

impl<'a, T> ContextBase<'a, T> {
    /// A new id for a resolution started from this one.
    fn get_child_resolve_id(&self, ids: &mut ResolveIdCounter) -> (r: ResolveId)
        requires
            old(ids).wf(),
            old(ids).is_issued(self.resolve_id.current),
            old(ids).last() < usize::MAX,
        ensures
            final(ids).wf(),
            r.parent == Some(self.resolve_id.current),
            r.current == old(ids).last() + 1,
            final(ids).issued() == old(ids).issued().push(r),
            final(ids).last() == old(ids).last() + 1,
    {
        ids.child_of(self.resolve_id)
    }

    /// The context of a field below this one: the path gains the field's
    /// response key and the field gets a new id.
    pub fn with_field(&'a self, field: &'a Spanned<Field>, ids: &mut ResolveIdCounter) -> (r: ContextBase<'a, &'a Spanned<Field>>)
        requires
            old(ids).wf(),
            old(ids).is_issued(self.resolve_id.current),
            old(ids).last() < usize::MAX,
        ensures
            final(ids).wf(),
            final(ids).issued() == old(ids).issued().push(r.resolve_id),
            r.resolve_id.parent == Some(self.resolve_id.current),
            r.resolve_id.current == old(ids).last() + 1,
            r.path_node is Some,
            r.path_node->0.segment matches QueryPathSegment::Name(n) && n@ == response_key(field.node),
            opt_path(r.path_node) == opt_path(self.path_node) + seq![r.path_node->0.segment],
            r.item == field,
            r.variables == self.variables,
            r.variable_definitions == self.variable_definitions,
            r.fragments == self.fragments,
            r.registry == self.registry,
    {
        let name: &'a str = field.node.result_name().as_str();
        let resolve_id = self.get_child_resolve_id(ids);
        ContextBase {
            path_node: Some(QueryPathNode { parent: self.path_node.as_ref(), segment: QueryPathSegment::Name(name) }),
            resolve_id,
            item: field,
            variables: self.variables,
            variable_definitions: self.variable_definitions,
            fragments: self.fragments,
            registry: self.registry,
        }
    }

    /// The context of a selection set at the same place and with the same id.
    pub fn with_selection_set(&self, selection_set: &'a Spanned<SelectionSet>) -> (r: ContextBase<'a, &'a Spanned<SelectionSet>>)
        ensures
            r.path_node == self.path_node,
            r.resolve_id == self.resolve_id,
            r.item == selection_set,
            r.variables == self.variables,
            r.variable_definitions == self.variable_definitions,
            r.fragments == self.fragments,
            r.registry == self.registry,
    {
        ContextBase {
            path_node: self.path_node,
            resolve_id: self.resolve_id,
            item: selection_set,
            variables: self.variables,
            variable_definitions: self.variable_definitions,
            fragments: self.fragments,
            registry: self.registry,
        }
    }

    /// The value the variable `name` stands for, borrowed.
    fn binding(&self, name: &String) -> (r: Option<&'a Value>)
        ensures
            match var_binding(*self.variables, self.variable_definitions@, name@) {
                Some(b) => r matches Some(v) && *v == b,
                None => r is None,
            },
    {
        let defs = self.variable_definitions;
        let vars: &'a Variables = self.variables;
        let mut j: usize = 0;
        while j < defs.len()
            invariant
                defs@ == self.variable_definitions@,
                vars == self.variables,
                0 <= j <= defs@.len(),
                def_pos(defs@, name@) == def_pos_from(defs@, name@, j as int),
            decreases defs@.len() - j,
        {
            if str_eq(&defs[j].node.name.node, name) {
                assert(def_pos(defs@, name@) == j);
                match vars.get(name) {
                    Some(v) => return Some(v),
                    None => match &defs[j].node.default_value {
                        Some(d) => return Some(&d.node),
                        None => return None,
                    },
                }
            }
            j = j + 1;
        }
        None
    }

    /// The value the variable `name` stands for: the one received, else the
    /// declared default.
    pub fn var_value(&self, name: &String, pos: Pos) -> (r: Result<Value, Error>)
        ensures
            match var_binding(*self.variables, self.variable_definitions@, name@) {
                Some(b) => r matches Ok(v) && same_value(v, b),
                None => r matches Err(e) && e.pos == pos && (e.err matches QueryError::VarNotDefined { var_name } && var_name@ == name@),
            },
    {
        match self.binding(name) {
            Some(v) => Ok(v.deep_clone()),
            None => Err(QueryError::VarNotDefined { var_name: name.clone() }.into_error(pos)),
        }
    }

    /// `value` with every variable in it, at any depth, replaced by the value it stands for.
    pub fn resolve_input_value(&self, value: &Value, pos: Pos) -> (r: Result<Value, Error>)
        ensures
            all_vars_bound(*value, *self.variables, self.variable_definitions@) <==> r is Ok,
            r matches Ok(v) ==> resolved(*value, v, *self.variables, self.variable_definitions@),
            r matches Err(e) ==> e.pos == pos && (e.err matches QueryError::VarNotDefined { var_name } && unbound_in(
                *value,
                var_name@,
                *self.variables,
                self.variable_definitions@,
            )),
        decreases value,
    {
        match value {
            Value::Variable(name) => self.var_value(name, pos),
            Value::List(x) => {
                let mut out: Vec<Spanned<Value>> = Vec::new();
                let mut i: usize = 0;
                while i < x.len()
                    invariant
                        *value == Value::List(*x),
                        out@.len() == i,
                        0 <= i <= x@.len(),
                        forall|k: int| #![trigger x@[k]] 0 <= k < i ==> out@[k].span == x@[k].span && resolved(
                            x@[k].node,
                            out@[k].node,
                            *self.variables,
                            self.variable_definitions@,
                        ) && all_vars_bound(x@[k].node, *self.variables, self.variable_definitions@),
                    decreases x@.len() - i,
                {
                    proof { crate::value::lemma_list_elem_decreases(*value, i as int); }
                    match self.resolve_input_value(&x[i].node, pos) {
                        Ok(v) => {
                            out.push(Spanned { span: x[i].span, node: v });
                        },
                        Err(e) => {
                            return Err(e);
                        },
                    }
                    i = i + 1;
                }
                Ok(Value::List(out))
            },
            Value::Object(x) => {
                let mut out: Vec<(Spanned<String>, Spanned<Value>)> = Vec::new();
                let mut i: usize = 0;
                while i < x.len()
                    invariant
                        *value == Value::Object(*x),
                        out@.len() == i,
                        0 <= i <= x@.len(),
                        forall|k: int| #![trigger x@[k]] 0 <= k < i ==> out@[k].0 == x@[k].0 && out@[k].1.span == x@[k].1.span
                            && resolved(x@[k].1.node, out@[k].1.node, *self.variables, self.variable_definitions@)
                            && all_vars_bound(x@[k].1.node, *self.variables, self.variable_definitions@),
                    decreases x@.len() - i,
                {
                    proof { crate::value::lemma_field_decreases(*value, i as int); }
                    match self.resolve_input_value(&x[i].1.node, pos) {
                        Ok(v) => {
                            let key = Spanned { span: x[i].0.span, node: x[i].0.node.clone() };
                            out.push((key, Spanned { span: x[i].1.span, node: v }));
                        },
                        Err(e) => {
                            return Err(e);
                        },
                    }
                    i = i + 1;
                }
                Ok(Value::Object(out))
            },
            other => Ok(other.deep_clone()),
        }
    }
}

fn find_arg(args: &Vec<(Spanned<String>, Spanned<Value>)>, name: &str) -> (r: Option<usize>)
    ensures
        match r {
            Some(p) => p == key_pos(args@, name@) && 0 <= p < args@.len(),
            None => key_pos(args@, name@) == -1,
        },
{
    let n = String::from_str(name);
    find_key(args, &n)
}

impl<'a, T> ContextBase<'a, T> {
    /// Whether every variable inside `v` stands for a value.
    fn vars_bound(&self, v: &Value) -> (r: bool)
        ensures
            r == all_vars_bound(*v, *self.variables, self.variable_definitions@),
        decreases v,
    {
        match v {
            Value::Variable(name) => match self.binding(name) {
                Some(_) => true,
                None => false,
            },
            Value::List(x) => {
                let mut i: usize = 0;
                while i < x.len()
                    invariant
                        *v == Value::List(*x),
                        0 <= i <= x@.len(),
                        forall|k: int| #![trigger x@[k]] 0 <= k < i ==> all_vars_bound(x@[k].node, *self.variables, self.variable_definitions@),
                    decreases x@.len() - i,
                {
                    proof { crate::value::lemma_list_elem_decreases(*v, i as int); }
                    if !self.vars_bound(&x[i].node) {
                        return false;
                    }
                    i = i + 1;
                }
                true
            },
            Value::Object(x) => {
                let mut i: usize = 0;
                while i < x.len()
                    invariant
                        *v == Value::Object(*x),
                        0 <= i <= x@.len(),
                        forall|k: int| #![trigger x@[k]] 0 <= k < i ==> all_vars_bound(x@[k].1.node, *self.variables, self.variable_definitions@),
                    decreases x@.len() - i,
                {
                    proof { crate::value::lemma_field_decreases(*v, i as int); }
                    if !self.vars_bound(&x[i].1.node) {
                        return false;
                    }
                    i = i + 1;
                }
                true
            },
            _ => true,
        }
    }

    /// What one `@skip` directive, or one of its keeping counterpart, decides.
    fn directive_skips(&self, d: &Spanned<Directive>) -> (r: Result<bool, Error>)
        ensures
            match directive_skips(d.node, *self.variables, self.variable_definitions@) {
                Ok(b) => r == Ok::<bool, Error>(b),
                Err(k) => r matches Err(e) && kind_of(e.err) == k && directive_error(*d, *self.variables, self.variable_definitions@, e),
            },
    {
        proof {
            reveal_strlit("skip");
        }
        let is_skip = eq_str(&d.node.name.node, "skip");
        let is_keep = eq_chars(&d.node.name.node, &['i', 'n', 'c', 'l', 'u', 'd', 'e']);
        if !is_skip && !is_keep {
            return Err(QueryError::UnknownDirective { name: d.node.name.node.clone() }.into_error(d.position()));
        }
        proof { reveal_strlit("if"); }
        match find_arg(&d.node.arguments, "if") {
            None => {
                let mut directive = String::from_str("@");
                push_str(&mut directive, d.node.name.node.as_str());
                proof {
                    reveal_strlit("@");
                    reveal_strlit("Boolean!");
                }
                Err(QueryError::RequiredDirectiveArgs {
                    directive,
                    arg_name: String::from_str("if"),
                    arg_type: String::from_str("Boolean!"),
                }.into_error(d.position()))
            },
            Some(p) => {
                let arg = &d.node.arguments[p].1;
                let v = match self.resolve_input_value(&arg.node, arg.position()) {
                    Ok(v) => v,
                    Err(e) => return Err(e),
                };
                match v {
                    Value::Boolean(b) => {
                        assert(resolved_bool(arg.node, *self.variables, self.variable_definitions@) == Some(b));
                        Ok(if is_skip { b } else { !b })
                    },
                    other => {
                        assert(resolved_bool(arg.node, *self.variables, self.variable_definitions@) is None);
                        let expect = String::from_str("Boolean!");
                        proof { reveal_strlit("Boolean!"); }
                        Err(QueryError::ExpectedType { expect, actual: other }.into_error(d.position()))
                    },
                }
            },
        }
    }

    /// Whether the directives leave the item out: `@skip(if: true)` does, and so
    /// does its keeping counterpart with `if: false`.
    /// Directives are read in order; other directives and malformed ones are errors.
    pub fn is_skip(&self, directives: &[Spanned<Directive>]) -> (r: Result<bool, Error>)
        ensures
            match skip_from(directives@, 0, *self.variables, self.variable_definitions@) {
                Ok(b) => r == Ok::<bool, Error>(b),
                Err(k) => r matches Err(e) && kind_of(e.err) == k && directive_error(
                    directives@[skip_stop(directives@, 0, *self.variables, self.variable_definitions@)],
                    *self.variables,
                    self.variable_definitions@,
                    e,
                ),
            },
    {
        let mut i: usize = 0;
        while i < directives.len()
            invariant
                0 <= i <= directives@.len(),
                skip_from(directives@, 0, *self.variables, self.variable_definitions@)
                    == skip_from(directives@, i as int, *self.variables, self.variable_definitions@),
                skip_stop(directives@, 0, *self.variables, self.variable_definitions@)
                    == skip_stop(directives@, i as int, *self.variables, self.variable_definitions@),
            decreases directives@.len() - i,
        {
            match self.directive_skips(&directives[i]) {
                Ok(true) => return Ok(true),
                Ok(false) => {},
                Err(e) => return Err(e),
            }
            i = i + 1;
        }
        Ok(false)
    }
}

impl<'a> ContextBase<'a, &'a Spanned<SelectionSet>> {
    /// The context of a list element: the path gains the position and the element gets a new id.
    pub fn with_index(&'a self, idx: usize, ids: &mut ResolveIdCounter) -> (r: ContextBase<'a, &'a Spanned<SelectionSet>>)
        requires
            old(ids).wf(),
            old(ids).is_issued(self.resolve_id.current),
            old(ids).last() < usize::MAX,
        ensures
            final(ids).wf(),
            final(ids).issued() == old(ids).issued().push(r.resolve_id),
            r.resolve_id.parent == Some(self.resolve_id.current),
            r.resolve_id.current == old(ids).last() + 1,
            r.path_node is Some,
            r.path_node->0.segment == QueryPathSegment::Index(idx),
            opt_path(r.path_node) == opt_path(self.path_node) + seq![QueryPathSegment::Index(idx)],
            r.item == self.item,
            r.variables == self.variables,
            r.variable_definitions == self.variable_definitions,
            r.fragments == self.fragments,
            r.registry == self.registry,
    {
        let resolve_id = self.get_child_resolve_id(ids);
        ContextBase {
            path_node: Some(QueryPathNode { parent: self.path_node.as_ref(), segment: QueryPathSegment::Index(idx) }),
            resolve_id,
            item: self.item,
            variables: self.variables,
            variable_definitions: self.variable_definitions,
            fragments: self.fragments,
            registry: self.registry,
        }
    }
}

impl<'a> ContextBase<'a, &'a Spanned<Field>> {
    /// The key under which this field's result appears.
    pub fn result_name(&self) -> (r: &'a str)
        ensures
            r@ == response_key(self.item.node),
    {
        self.item.node.result_name().as_str()
    }

    /// Reads the argument `name` of this field as a `V`, after replacing the
    /// variables in it; without such an argument, reads `default()` instead.
    pub fn param_value<V: InputValueType, F: FnOnce() -> Value>(&self, name: &str, default: F) -> (r: Result<V, Error>)
        requires
            default.requires(()),
        ensures
            key_pos(self.item.node.arguments@, name@) >= 0 ==> arg_read::<V>(
                self.item.node.arguments@[key_pos(self.item.node.arguments@, name@)].1,
                *self.variables,
                self.variable_definitions@,
                r,
            ),
            key_pos(self.item.node.arguments@, name@) < 0 ==> exists|dv: Value|
                #[trigger] default.ensures((), dv) && value_read::<V>(dv, self.item.span.start, r),
    {
        match find_arg(&self.item.node.arguments, name) {
            Some(p) => {
                let arg = &self.item.node.arguments[p].1;
                let pos = arg.position();
                let v = match self.resolve_input_value(&arg.node, pos) {
                    Ok(v) => v,
                    Err(e) => return Err(e),
                };
                let ghost gv = v;
                let res = match V::parse(&v) {
                    Some(x) => Ok(x),
                    None => Err(QueryError::ExpectedType { expect: V::qualified_type_name(), actual: v }.into_error(pos)),
                };
                assert(resolved(arg.node, gv, *self.variables, self.variable_definitions@) && value_read::<V>(gv, arg.span.start, res));
                res
            },
            None => {
                let v = default();
                let ghost gv = v;
                assert(default.ensures((), gv));
                match V::parse(&v) {
                    Some(x) => Ok(x),
                    None => Err(QueryError::ExpectedType { expect: V::qualified_type_name(), actual: v }.into_error(self.item.position())),
                }
            },
        }
    }
}

/// A variable that was received overrides its declared default; one that was
/// not falls back to the default; with neither, it stands for nothing.
pub proof fn lemma_variable_shadowing(vars: Variables, defs: Seq<Spanned<VariableDefinition>>, name: Seq<char>)
    requires
        def_pos(defs, name) >= 0,
    ensures
        vars.lookup(name) matches Some(v) ==> var_binding(vars, defs, name) == Some(v),
        vars.lookup(name) is None ==> match defs[def_pos(defs, name)].node.default_value {
            Some(d) => var_binding(vars, defs, name) == Some(d.node),
            None => var_binding(vars, defs, name) is None,
        },
{
}

/// `@skip(if: x)` leaves an item out exactly when the keeping directive with
/// `if: !x` does.
pub proof fn lemma_skip_keep_duality(
    skip: Spanned<Directive>,
    keep: Spanned<Directive>,
    vars: Variables,
    defs: Seq<Spanned<VariableDefinition>>,
    x: bool,
)
    requires
        skip.node.name.node@ == "skip"@,
        keep.node.name.node@ == keep_directive_name(),
        key_pos(skip.node.arguments@, "if"@) >= 0,
        key_pos(keep.node.arguments@, "if"@) >= 0,
        skip.node.arguments@[key_pos(skip.node.arguments@, "if"@)].1.node == Value::Boolean(x),
        keep.node.arguments@[key_pos(keep.node.arguments@, "if"@)].1.node == Value::Boolean(!x),
    ensures
        skip_from(seq![skip], 0, vars, defs) == skip_from(seq![keep], 0, vars, defs),
        skip_from(seq![skip], 0, vars, defs) == Ok::<bool, ErrorKind>(x),
{
    assert("skip"@ != keep_directive_name()) by {
        reveal_strlit("skip");
        assert("skip"@[0] != keep_directive_name()[0]);
    }
    assert(skip_from(seq![skip], 1, vars, defs) == Ok::<bool, ErrorKind>(false));
    assert(skip_from(seq![keep], 1, vars, defs) == Ok::<bool, ErrorKind>(false));
}

} // verus!
