use crate::model::{
    lemma_views_push, views, Conffile, ConffileView, DepEdge, DepEdgeView, RelationKind,
};
use crate::text::{
    chars_of, split, split_bounds, text_of, text_without, trim_bounds, trimmed, without_char,
};
use vstd::prelude::*;

verus! {

/// One field of a control paragraph.
#[derive(Debug)]
pub struct Field {
    pub name: String,
    pub value: String,
}

impl View for Field {
    type V = (Seq<char>, Seq<char>);

    open spec fn view(&self) -> (Seq<char>, Seq<char>) {
        (self.name@, self.value@)
    }
}

/// One paragraph of a control file: its fields in the order they stand.
#[derive(Debug)]
pub struct Paragraph {
    pub fields: Vec<Field>,
}

impl View for Paragraph {
    type V = Seq<(Seq<char>, Seq<char>)>;

    open spec fn view(&self) -> Seq<(Seq<char>, Seq<char>)> {
        views(self.fields@)
    }
}

/// The error `debcontrol` reports for text that is no control file.
#[verifier::external_type_specification]
#[verifier::external_body]
pub struct ExSyntaxError<'a>(debcontrol::SyntaxError<'a>);

/// The paragraphs that a control file holds, each a sequence of fields
/// given as name and value, or nothing for text that is no control file.
pub uninterp spec fn control_paragraphs(input: Seq<char>) -> Option<
    Seq<Seq<(Seq<char>, Seq<char>)>>,
>;

/// Calls `debcontrol::parse_str`, which parses a complete control file
/// into its paragraphs, and copies each field's name and value. Whether it
/// succeeds and what it yields is a function of the text alone, named
/// `control_paragraphs`.
#[verifier::external_body]
fn parse_str<'a>(input: &'a str) -> (r: Result<Vec<Paragraph>, debcontrol::SyntaxError<'a>>)
    ensures
        match r {
            Ok(paragraphs) => control_paragraphs(input@) == Some(views(paragraphs@)),
            Err(_) => control_paragraphs(input@) is None,
        },
{
    let parsed = debcontrol::parse_str(input)?;
    Ok(
        parsed.into_iter().map(
            |p| Paragraph {
                fields: p.fields.into_iter().map(
                    |f| Field { name: f.name.to_string(), value: f.value },
                ).collect(),
            },
        ).collect(),
    )
}

/// The paragraphs of a control file, if the text is one.
pub fn parse_control(input: &str) -> (r: Option<Vec<Paragraph>>)
    ensures
        match r {
            Some(paragraphs) => control_paragraphs(input@) == Some(views(paragraphs@)),
            None => control_paragraphs(input@) is None,
        },
{
    match parse_str(input) {
        Ok(paragraphs) => Some(paragraphs),
        Err(_) => None,
    }
}

/// The name under which a field is looked up.
pub open spec fn field_key(f: (Seq<char>, Seq<char>), trim_names: bool) -> Seq<char> {
    if trim_names {
        trimmed(f.0)
    } else {
        f.0
    }
}

/// The value of the last field named `key`, if there is one.
pub open spec fn lookup(fields: Seq<(Seq<char>, Seq<char>)>, key: Seq<char>, trim_names: bool)
    -> Option<Seq<char>>
    decreases fields.len(),
{
    if fields.len() == 0 {
        None
    } else if field_key(fields.last(), trim_names) == key {
        Some(fields.last().1)
    } else {
        lookup(fields.drop_last(), key, trim_names)
    }
}

/// The place of the last field named `key`, if there is one.
pub fn find_field(fields: &Vec<Field>, key: &str, trim_names: bool) -> (at: Option<usize>)
    ensures
        match at {
            Some(i) => i < fields.len() && lookup(views(fields@), key@, trim_names) == Some(
                fields@[i as int].value@,
            ) && field_key(fields@[i as int]@, trim_names) == key@ && forall|k: int|
                i < k < fields.len() ==> field_key(#[trigger] views(fields@)[k], trim_names)
                    != key@,
            None => lookup(views(fields@), key@, trim_names) is None,
        },
{
    let wanted = key.to_owned();
    let mut i: usize = fields.len();
    assert(views(fields@).take(fields.len() as int) =~= views(fields@));
    while i > 0
        invariant
            i <= fields.len(),
            wanted@ == key@,
            lookup(views(fields@), key@, trim_names) == lookup(
                views(fields@).take(i as int),
                key@,
                trim_names,
            ),
            forall|k: int|
                i <= k < fields.len() ==> field_key(#[trigger] views(fields@)[k], trim_names)
                    != key@,
        decreases i,
    {
        let f = &fields[i - 1];
        proof {
            let fv = views(fields@);
            assert(fv.take(i as int).last() == f@);
            assert(fv.take(i as int).drop_last() =~= fv.take(i - 1));
        }
        let same = if trim_names {
            let v = chars_of(f.name.as_str());
            let (a, b) = trim_bounds(&v, 0, v.len());
            assert(v@.subrange(0, v.len() as int) =~= v@);
            text_of(&v, a, b) == wanted
        } else {
            f.name == wanted
        };
        if same {
            return Some(i - 1);
        }
        i = i - 1;
    }
    None
}

/// The value of the last field named `key`, if there is one.
pub fn field_value(fields: &Vec<Field>, key: &str, trim_names: bool) -> (value: Option<String>)
    ensures
        crate::model::opt_text(value) == lookup(views(fields@), key@, trim_names),
{
    match find_field(fields, key, trim_names) {
        Some(i) => Some(fields[i].value.clone()),
        None => None,
    }
}

/// The edge that one alternative of a dependency field stands for: the
/// name is what stands before the first `(`, white space around it aside;
/// the version is what stands between the first `(` and the next, without
/// any `)`.
pub open spec fn alt_edge(package: Seq<char>, kind: RelationKind, alt: Seq<char>) -> DepEdgeView {
    let parts = split(alt, seq!['(']);
    DepEdgeView {
        package,
        kind,
        dependency: trimmed(parts[0]),
        version: if parts.len() > 1 {
            Some(without_char(parts[1], ')'))
        } else {
            None
        },
    }
}

/// The edges of the alternatives `alts`, one each.
pub open spec fn alts_edges(package: Seq<char>, kind: RelationKind, alts: Seq<Seq<char>>) -> Seq<
    DepEdgeView,
>
    decreases alts.len(),
{
    if alts.len() == 0 {
        Seq::empty()
    } else {
        alts_edges(package, kind, alts.drop_last()).push(alt_edge(package, kind, alts.last()))
    }
}

/// The edges of the dependencies `deps`, each of which may offer
/// alternatives separated by `|`.
pub open spec fn deps_edges(package: Seq<char>, kind: RelationKind, deps: Seq<Seq<char>>) -> Seq<
    DepEdgeView,
>
    decreases deps.len(),
{
    if deps.len() == 0 {
        Seq::empty()
    } else {
        deps_edges(package, kind, deps.drop_last()) + alts_edges(
            package,
            kind,
            split(deps.last(), seq!['|']),
        )
    }
}

/// The edges that a dependency field declares: the field is a list
/// separated by a comma and a space.
pub open spec fn field_edges(package: Seq<char>, kind: RelationKind, value: Seq<char>) -> Seq<
    DepEdgeView,
> {
    deps_edges(package, kind, split(value, seq![',', ' ']))
}

/// The pieces of a split are never none.
pub proof fn lemma_split_nonempty(s: Seq<char>, sep: Seq<char>, start: int, i: int)
    ensures
        crate::text::split_from(s, sep, start, i).len() > 0,
    decreases s.len() - i,
{
    if sep.len() == 0 || i < start || start < 0 || i + sep.len() > s.len() {
    } else if s.subrange(i, i + sep.len()) == sep {
    } else {
        lemma_split_nonempty(s, sep, start, i + 1);
    }
}

/// Appends the edges that a dependency field of `package` declares.
pub fn process_dep(package: &String, kind: RelationKind, value: &str, edges: &mut Vec<DepEdge>)
    ensures
        views(final(edges)@) == views(old(edges)@) + field_edges(package@, kind, value@),
{
    let ghost base = views(edges@);
    let v = chars_of(value);
    let mut comma: Vec<char> = Vec::new();
    comma.push(',');
    comma.push(' ');
    let mut bar: Vec<char> = Vec::new();
    bar.push('|');
    let mut paren: Vec<char> = Vec::new();
    paren.push('(');
    assert(comma@ =~= seq![',', ' ']);
    assert(bar@ =~= seq!['|']);
    assert(paren@ =~= seq!['(']);
    assert(v@.subrange(0, v.len() as int) =~= v@);
    let deps = split_bounds(&v, 0, v.len(), &comma);
    let ghost dv = split(v@, comma@);
    let mut i: usize = 0;
    assert(dv.take(0) =~= Seq::<Seq<char>>::empty());
    assert(views(edges@) =~= base + deps_edges(package@, kind, dv.take(0)));
    while i < deps.len()
        invariant
            i <= deps.len(),
            v@ == value@,
            bar@ == seq!['|'],
            paren@ == seq!['('],
            dv == split(v@, comma@),
            comma@ == seq![',', ' '],
            deps.len() == dv.len(),
            forall|k: int|
                0 <= k < deps.len() ==> 0 <= (#[trigger] deps[k]).0 <= deps[k].1 <= v.len()
                    && v@.subrange(deps[k].0 as int, deps[k].1 as int) == dv[k],
            views(edges@) == base + deps_edges(package@, kind, dv.take(i as int)),
        decreases deps.len() - i,
    {
        let (da, db) = deps[i];
        let alts = split_bounds(&v, da, db, &bar);
        let ghost av = split(dv[i as int], bar@);
        let ghost sofar = views(edges@);
        let mut j: usize = 0;
        assert(av.take(0) =~= Seq::<Seq<char>>::empty());
        assert(views(edges@) =~= sofar + alts_edges(package@, kind, av.take(0)));
        while j < alts.len()
            invariant
                j <= alts.len(),
                da <= db <= v.len(),
                paren@ == seq!['('],
                alts.len() == av.len(),
                forall|k: int|
                    0 <= k < alts.len() ==> da <= (#[trigger] alts[k]).0 <= alts[k].1 <= db
                        && v@.subrange(alts[k].0 as int, alts[k].1 as int) == av[k],
                views(edges@) == sofar + alts_edges(package@, kind, av.take(j as int)),
            decreases alts.len() - j,
        {
            let (aa, ab) = alts[j];
            let parts = split_bounds(&v, aa, ab, &paren);
            proof {
                lemma_split_nonempty(av[j as int], paren@, 0, 0);
            }
            let (na, nb) = parts[0];
            let (ta, tb) = trim_bounds(&v, na, nb);
            let dependency = text_of(&v, ta, tb);
            let version = if parts.len() > 1 {
                let (va, vb) = parts[1];
                Some(text_without(&v, va, vb, ')'))
            } else {
                None
            };
            let ghost before = edges@;
            let edge = DepEdge { package: package.clone(), kind, dependency, version };
            edges.push(edge);
            proof {
                lemma_views_push(before, edge);
                assert(edge@ == alt_edge(package@, kind, av[j as int]));
                assert(av.take(j + 1).drop_last() =~= av.take(j as int));
                assert(av.take(j + 1).last() == av[j as int]);
                assert((sofar + alts_edges(package@, kind, av.take(j as int))).push(edge@) =~= sofar
                    + alts_edges(package@, kind, av.take(j + 1)));
            }
            j = j + 1;
        }
        proof {
            assert(av.take(alts.len() as int) =~= av);
            assert(dv.take(i + 1).drop_last() =~= dv.take(i as int));
            assert(dv.take(i + 1).last() == dv[i as int]);
            assert(base + deps_edges(package@, kind, dv.take(i as int)) + alts_edges(
                package@,
                kind,
                av,
            ) =~= base + deps_edges(package@, kind, dv.take(i + 1)));
        }
        i = i + 1;
    }
    assert(dv.take(deps.len() as int) =~= dv);
}

/// The conffile row that a line of the conffiles field declares, if it
/// names a file: the name is what stands before the first space of the
/// line, white space around the line aside, and the hash what stands
/// between the first space and the next.
pub open spec fn line_conffile(package: Seq<char>, line: Seq<char>) -> Option<ConffileView> {
    let parts = split(trimmed(line), seq![' ']);
    if parts[0].len() == 0 {
        None
    } else {
        Some(
            ConffileView {
                package,
                path: parts[0],
                hash: if parts.len() > 1 {
                    trimmed(parts[1])
                } else {
                    Seq::empty()
                },
            },
        )
    }
}

/// The conffile rows that the lines declare.
pub open spec fn lines_conffiles(package: Seq<char>, lines: Seq<Seq<char>>) -> Seq<ConffileView>
    decreases lines.len(),
{
    if lines.len() == 0 {
        Seq::empty()
    } else {
        let rest = lines_conffiles(package, lines.drop_last());
        match line_conffile(package, lines.last()) {
            Some(row) => rest.push(row),
            None => rest,
        }
    }
}

/// The conffile rows that a conffiles field declares, one line each.
pub open spec fn field_conffiles(package: Seq<char>, value: Seq<char>) -> Seq<ConffileView> {
    lines_conffiles(package, split(value, seq!['\n']))
}

/// Appends the conffile rows that a conffiles field of `package` declares.
pub fn process_conffiles(package: &String, value: &str, rows: &mut Vec<Conffile>)
    ensures
        views(final(rows)@) == views(old(rows)@) + field_conffiles(package@, value@),
{
    let ghost base = views(rows@);
    let v = chars_of(value);
    let mut newline: Vec<char> = Vec::new();
    newline.push('\n');
    let mut space: Vec<char> = Vec::new();
    space.push(' ');
    assert(newline@ =~= seq!['\n']);
    assert(space@ =~= seq![' ']);
    assert(v@.subrange(0, v.len() as int) =~= v@);
    let lines = split_bounds(&v, 0, v.len(), &newline);
    let ghost lv = split(v@, newline@);
    let mut i: usize = 0;
    assert(lv.take(0) =~= Seq::<Seq<char>>::empty());
    assert(views(rows@) =~= base + lines_conffiles(package@, lv.take(0)));
    while i < lines.len()
        invariant
            i <= lines.len(),
            v@ == value@,
            space@ == seq![' '],
            lv == split(v@, seq!['\n']),
            lines.len() == lv.len(),
            forall|k: int|
                0 <= k < lines.len() ==> 0 <= (#[trigger] lines[k]).0 <= lines[k].1 <= v.len()
                    && v@.subrange(lines[k].0 as int, lines[k].1 as int) == lv[k],
            views(rows@) == base + lines_conffiles(package@, lv.take(i as int)),
        decreases lines.len() - i,
    {
        let (la, lb) = lines[i];
        let (ta, tb) = trim_bounds(&v, la, lb);
        let parts = split_bounds(&v, ta, tb, &space);
        proof {
            lemma_split_nonempty(trimmed(lv[i as int]), space@, 0, 0);
            assert(lv.take(i + 1).drop_last() =~= lv.take(i as int));
            assert(lv.take(i + 1).last() == lv[i as int]);
        }
        let (na, nb) = parts[0];
        if nb > na {
            let path = text_of(&v, na, nb);
            let hash = if parts.len() > 1 {
                let (ha, hb) = parts[1];
                let (ha, hb) = trim_bounds(&v, ha, hb);
                text_of(&v, ha, hb)
            } else {
                assert(v@.subrange(0, 0) =~= Seq::<char>::empty());
                text_of(&v, 0, 0)
            };
            let ghost before = rows@;
            let row = Conffile { package: package.clone(), path, hash };
            rows.push(row);
            proof {
                lemma_views_push(before, row);
                assert(line_conffile(package@, lv[i as int]) == Some(row@));
                assert((base + lines_conffiles(package@, lv.take(i as int))).push(row@) =~= base
                    + lines_conffiles(package@, lv.take(i + 1)));
            }
        }
        i = i + 1;
    }
    assert(lv.take(lines.len() as int) =~= lv);
}

} // verus!
