//! YAML documents as plain trees.
use crate::chars::{chars_of, same, texts};
use crate::text::{signed_decimal, signed_decimal_text};
use vstd::prelude::*;

verus! {

/// A YAML node: what the nodes below it hold, in document order. A node that is neither text nor
/// a boolean, an integer, a sequence or a mapping is `Other`.
pub enum Tree {
    Text(Seq<char>),
    Bool(bool),
    Integer(int),
    List(Seq<Tree>),
    Table(Seq<(Tree, Tree)>),
    Other,
}

/// A YAML node.
pub enum Node {
    Text(String),
    Bool(bool),
    Integer(i64),
    List(Vec<Node>),
    Table(Vec<(Node, Node)>),
    Other,
}

impl Node {
    pub open spec fn tree(self) -> Tree
        decreases self,
    {
        match self {
            Node::Text(s) => Tree::Text(s@),
            Node::Bool(b) => Tree::Bool(b),
            Node::Integer(i) => Tree::Integer(i as int),
            Node::List(items) => Tree::List(
                Seq::new(
                    items@.len(),
                    |i: int|
                        if 0 <= i < items@.len() {
                            items@[i].tree()
                        } else {
                            arbitrary()
                        },
                ),
            ),
            Node::Table(rows) => Tree::Table(
                Seq::new(
                    rows@.len(),
                    |i: int|
                        if 0 <= i < rows@.len() {
                            (rows@[i].0.tree(), rows@[i].1.tree())
                        } else {
                            arbitrary()
                        },
                ),
            ),
            Node::Other => Tree::Other,
        }
    }
}

/// `saphyr::Yaml`, a node of a loaded document.
#[verifier::external_type_specification]
#[verifier::external_body]
pub struct ExYaml<'a>(saphyr::Yaml<'a>);

/// What a `saphyr::Yaml` node holds.
pub uninterp spec fn yaml_content(node: saphyr::Yaml<'_>) -> Tree;

/// What `saphyr::Yaml::load_from_str` returns: the documents of the text, or the text of the
/// error.
pub uninterp spec fn yaml_documents(text: Seq<char>) -> Result<Seq<Tree>, Seq<char>>;

/// `saphyr::Yaml::load_from_str`: the documents of a YAML text, or what is wrong with it. That
/// depends on the text alone.
#[verifier::external_body]
fn load_documents(text: &str) -> (r: Result<Vec<saphyr::Yaml<'static>>, String>)
    ensures
        match r {
            Ok(docs) => yaml_documents(text@) == Ok::<Seq<Tree>, Seq<char>>(
                docs@.map_values(|d: saphyr::Yaml<'static>| yaml_content(d)),
            ),
            Err(e) => yaml_documents(text@) == Err::<Seq<Tree>, Seq<char>>(e@),
        },
{
    <saphyr::Yaml<'static> as saphyr::LoadableYamlNode>::load_from_str(text).map_err(|e| e.to_string())
}

/// A node, opened by one level.
enum Opened {
    Text(String),
    Bool(bool),
    Integer(i64),
    List(Vec<saphyr::Yaml<'static>>),
    Table(Vec<(saphyr::Yaml<'static>, saphyr::Yaml<'static>)>),
    Other,
}

/// The variants of `saphyr::Yaml`: what the node holds itself, and the nodes right below it, in
/// the order in which a `saphyr::Yaml::Mapping` walks its entries, which is that of the document.
/// Nulls, floating-point numbers, tagged nodes and aliases are `Other`: `as_str`, `as_bool`,
/// `as_integer`, `as_sequence` and `as_mapping` answer nothing for them.
#[verifier::external_body]
fn open_node(node: saphyr::Yaml<'static>) -> (r: Opened)
    ensures
        yaml_content(node) == match r {
            Opened::Text(s) => Tree::Text(s@),
            Opened::Bool(b) => Tree::Bool(b),
            Opened::Integer(i) => Tree::Integer(i as int),
            Opened::List(items) => Tree::List(
                items@.map_values(|n: saphyr::Yaml<'static>| yaml_content(n)),
            ),
            Opened::Table(rows) => Tree::Table(
                rows@.map_values(
                    |row: (saphyr::Yaml<'static>, saphyr::Yaml<'static>)|
                        (yaml_content(row.0), yaml_content(row.1)),
                ),
            ),
            Opened::Other => Tree::Other,
        },
{
    match node {
        saphyr::Yaml::Value(saphyr::Scalar::String(s)) => Opened::Text(s.into_owned()),
        saphyr::Yaml::Value(saphyr::Scalar::Boolean(b)) => Opened::Bool(b),
        saphyr::Yaml::Value(saphyr::Scalar::Integer(i)) => Opened::Integer(i),
        saphyr::Yaml::Sequence(items) => Opened::List(items),
        saphyr::Yaml::Mapping(rows) => Opened::Table(rows.into_iter().collect()),
        _ => Opened::Other,
    }
}

/// A loaded node as a plain one.
fn convert(node: saphyr::Yaml<'static>) -> (r: Node)
    ensures
        r.tree() == yaml_content(node),
    decreases yaml_content(node),
{
    let ghost content = yaml_content(node);
    match open_node(node) {
        Opened::Text(s) => Node::Text(s),
        Opened::Bool(b) => Node::Bool(b),
        Opened::Integer(i) => Node::Integer(i),
        Opened::List(items) => {
            let ghost trees = content->List_0;
            let mut out: Vec<Node> = Vec::new();
            for item in it: items
                invariant
                    content == yaml_content(node),
                    content == Tree::List(trees),
                    it.seq() == items@,
                    trees == items@.map_values(|n: saphyr::Yaml<'static>| yaml_content(n)),
                    out@.len() == it.index(),
                    forall|i: int| 0 <= i < out@.len() ==> (#[trigger] out@[i]).tree() == trees[i],
            {
                assert(yaml_content(item) == trees[out@.len() as int]);
                assert(decreases_to!(content => content->List_0));
                assert(decreases_to!(trees => trees[out@.len() as int]));
                let item = convert(item);
                out.push(item);
            }
            let r = Node::List(out);
            assert(r.tree()->List_0 =~= trees);
            r
        },
        Opened::Table(rows) => {
            let ghost trees = content->Table_0;
            let mut out: Vec<(Node, Node)> = Vec::new();
            for row in it: rows
                invariant
                    content == yaml_content(node),
                    content == Tree::Table(trees),
                    it.seq() == rows@,
                    trees == rows@.map_values(
                        |row: (saphyr::Yaml<'static>, saphyr::Yaml<'static>)|
                            (yaml_content(row.0), yaml_content(row.1)),
                    ),
                    out@.len() == it.index(),
                    forall|i: int|
                        0 <= i < out@.len() ==> (
                            (#[trigger] out@[i]).0.tree(),
                            out@[i].1.tree(),
                        ) == trees[i],
            {
                let (key, value) = row;
                assert((yaml_content(key), yaml_content(value)) == trees[out@.len() as int]);
                assert(decreases_to!(content => content->Table_0));
                assert(decreases_to!(trees => trees[out@.len() as int]));
                assert(decreases_to!(trees[out@.len() as int] => trees[out@.len() as int].0));
                assert(decreases_to!(trees[out@.len() as int] => trees[out@.len() as int].1));
                let key = convert(key);
                let value = convert(value);
                out.push((key, value));
            }
            let r = Node::Table(out);
            assert(r.tree()->Table_0 =~= trees);
            r
        },
        Opened::Other => Node::Other,
    }
}

/// The first document of a text, where there is one.
pub open spec fn first_document(documents: Result<Seq<Tree>, Seq<char>>) -> Result<
    Option<Tree>,
    Seq<char>,
> {
    match documents {
        Ok(docs) => Ok(
            if docs.len() > 0 {
                Some(docs[0])
            } else {
                None
            },
        ),
        Err(e) => Err(e),
    }
}

/// The first document of a YAML text, `None` where the text has none, or what is wrong with it.
pub fn parse(text: &str) -> (r: Result<Option<Node>, String>)
    ensures
        match r {
            Ok(Some(node)) => first_document(yaml_documents(text@)) == Ok::<
                Option<Tree>,
                Seq<char>,
            >(Some(node.tree())),
            Ok(None) => first_document(yaml_documents(text@)) == Ok::<Option<Tree>, Seq<char>>(
                None,
            ),
            Err(e) => first_document(yaml_documents(text@)) == Err::<Option<Tree>, Seq<char>>(e@),
        },
{
    match load_documents(text) {
        Err(e) => Err(e),
        Ok(docs) => {
            let mut docs = docs;
            if docs.len() == 0 {
                Ok(None)
            } else {
                Ok(Some(convert(docs.remove(0))))
            }
        },
    }
}

/// The value of `name` in a mapping.
pub open spec fn field_of(node: Tree, name: Seq<char>) -> Option<Tree> {
    match node {
        Tree::Table(rows) => value_in(rows, name),
        _ => None,
    }
}

/// The value of the first row whose key is the text `name`.
pub open spec fn value_in(rows: Seq<(Tree, Tree)>, name: Seq<char>) -> Option<Tree>
    decreases rows.len(),
{
    if rows.len() == 0 {
        None
    } else if rows[0].0 == Tree::Text(name) {
        Some(rows[0].1)
    } else {
        value_in(rows.skip(1), name)
    }
}

/// The texts among some nodes, in their order.
pub open spec fn texts_among(items: Seq<Tree>) -> Seq<Seq<char>>
    decreases items.len(),
{
    if items.len() == 0 {
        Seq::empty()
    } else {
        let head = texts_among(items.drop_last());
        match items.last() {
            Tree::Text(s) => head.push(s),
            _ => head,
        }
    }
}

/// A text, or every text in a sequence, or every text among the keys of a mapping.
pub open spec fn names_in(node: Tree) -> Seq<Seq<char>> {
    match node {
        Tree::Text(s) => seq![s],
        Tree::List(items) => texts_among(items),
        Tree::Table(rows) => texts_among(rows.map_values(|row: (Tree, Tree)| row.0)),
        _ => Seq::empty(),
    }
}

/// A text, or every text in a sequence.
pub open spec fn list_in(node: Tree) -> Seq<Seq<char>> {
    match node {
        Tree::Text(s) => seq![s],
        Tree::List(items) => texts_among(items),
        _ => Seq::empty(),
    }
}

/// The text of a scalar, whether it was read as a text, a boolean or an integer.
pub open spec fn scalar_of(node: Tree) -> Option<Seq<char>> {
    match node {
        Tree::Text(s) => Some(s),
        Tree::Bool(b) => Some(
            if b {
                "true"@
            } else {
                "false"@
            },
        ),
        Tree::Integer(i) => Some(signed_decimal_text(i)),
        _ => None,
    }
}

proof fn lemma_value_in_absent(rows: Seq<(Tree, Tree)>, name: Seq<char>)
    requires
        forall|i: int| 0 <= i < rows.len() ==> (#[trigger] rows[i]).0 != Tree::Text(name),
    ensures
        value_in(rows, name) is None,
    decreases rows.len(),
{
    if rows.len() > 0 {
        assert(rows[0].0 != Tree::Text(name));
        assert forall|i: int| 0 <= i < rows.skip(1).len() implies (#[trigger] rows.skip(1)[i]).0
            != Tree::Text(name) by {
            assert(rows.skip(1)[i] == rows[i + 1]);
        }
        lemma_value_in_absent(rows.skip(1), name);
    }
}

proof fn lemma_value_in_found(rows: Seq<(Tree, Tree)>, name: Seq<char>, at: int)
    requires
        0 <= at < rows.len(),
        forall|i: int| 0 <= i < at ==> (#[trigger] rows[i]).0 != Tree::Text(name),
        rows[at].0 == Tree::Text(name),
    ensures
        value_in(rows, name) == Some(rows[at].1),
    decreases rows.len(),
{
    if at > 0 {
        assert(rows[0].0 != Tree::Text(name));
        assert forall|i: int| 0 <= i < at - 1 implies (#[trigger] rows.skip(1)[i]).0 != Tree::Text(
            name,
        ) by {
            assert(rows.skip(1)[i] == rows[i + 1]);
        }
        lemma_value_in_found(rows.skip(1), name, at - 1);
    }
}

impl Node {
    /// Whether the node is the text `name`.
    pub fn is_text(&self, name: &str) -> (r: bool)
        ensures
            r == (self.tree() == Tree::Text(name@)),
    {
        match self {
            Node::Text(s) => {
                let chars = chars_of(s.as_str());
                same(chars.as_slice(), name)
            },
            _ => false,
        }
    }

    /// The value of `name` in a mapping.
    pub fn field(&self, name: &str) -> (r: Option<&Node>)
        ensures
            match r {
                Some(value) => field_of(self.tree(), name@) == Some(value.tree()),
                None => field_of(self.tree(), name@) is None,
            },
    {
        match self {
            Node::Table(rows) => {
                let ghost trees = self.tree()->Table_0;
                let mut i: usize = 0;
                while i < rows.len()
                    invariant
                        0 <= i <= rows@.len(),
                        trees.len() == rows@.len(),
                        forall|j: int|
                            0 <= j < rows@.len() ==> #[trigger] trees[j] == (
                                rows@[j].0.tree(),
                                rows@[j].1.tree(),
                            ),
                        self.tree() == Tree::Table(trees),
                        forall|j: int|
                            0 <= j < i ==> (#[trigger] trees[j]).0 != Tree::Text(name@),
                    decreases rows@.len() - i,
                {
                    assert(trees[i as int].0 == rows@[i as int].0.tree());
                    if rows[i].0.is_text(name) {
                        proof {
                            lemma_value_in_found(trees, name@, i as int);
                        }
                        return Some(&rows[i].1);
                    }
                    i = i + 1;
                }
                proof {
                    lemma_value_in_absent(trees, name@);
                }
                None
            },
            _ => None,
        }
    }
}

/// The texts among some nodes, in their order.
fn texts_in(items: &Vec<Node>) -> (r: Vec<String>)
    ensures
        texts(r@) == texts_among(items@.map_values(|n: Node| n.tree())),
{
    let ghost trees = items@.map_values(|n: Node| n.tree());
    let mut out: Vec<String> = Vec::new();
    let mut i: usize = 0;
    assert(texts(out@) =~= texts_among(trees.take(0)));
    while i < items.len()
        invariant
            0 <= i <= items@.len(),
            trees == items@.map_values(|n: Node| n.tree()),
            texts(out@) == texts_among(trees.take(i as int)),
        decreases items@.len() - i,
    {
        let ghost before = texts(out@);
        proof {
            assert(trees.take(i + 1).drop_last() =~= trees.take(i as int));
            assert(trees.take(i + 1).last() == items@[i as int].tree());
        }
        match &items[i] {
            Node::Text(s) => {
                out.push(s.clone());
                assert(texts(out@) =~= before.push(s@));
            },
            _ => {},
        }
        i = i + 1;
    }
    assert(trees.take(i as int) =~= trees);
    out
}

/// The texts among the keys of some rows, in their order.
fn texts_of_keys(rows: &Vec<(Node, Node)>) -> (r: Vec<String>)
    ensures
        texts(r@) == texts_among(rows@.map_values(|row: (Node, Node)| row.0.tree())),
{
    let ghost trees = rows@.map_values(|row: (Node, Node)| row.0.tree());
    let mut out: Vec<String> = Vec::new();
    let mut i: usize = 0;
    assert(texts(out@) =~= texts_among(trees.take(0)));
    while i < rows.len()
        invariant
            0 <= i <= rows@.len(),
            trees == rows@.map_values(|row: (Node, Node)| row.0.tree()),
            texts(out@) == texts_among(trees.take(i as int)),
        decreases rows@.len() - i,
    {
        let ghost before = texts(out@);
        proof {
            assert(trees.take(i + 1).drop_last() =~= trees.take(i as int));
            assert(trees.take(i + 1).last() == rows@[i as int].0.tree());
        }
        match &rows[i].0 {
            Node::Text(s) => {
                out.push(s.clone());
                assert(texts(out@) =~= before.push(s@));
            },
            _ => {},
        }
        i = i + 1;
    }
    assert(trees.take(i as int) =~= trees);
    out
}

/// A text, or every text in a sequence, or every text among the keys of a mapping: the three
/// spellings of a workflow's triggers.
pub fn trigger_names(node: &Node) -> (r: Vec<String>)
    ensures
        texts(r@) == names_in(node.tree()),
{
    match node {
        Node::Text(s) => {
            let mut out: Vec<String> = Vec::new();
            out.push(s.clone());
            assert(texts(out@) =~= seq![s@]);
            out
        },
        Node::List(items) => {
            let out = texts_in(items);
            assert(node.tree()->List_0 =~= items@.map_values(|n: Node| n.tree()));
            out
        },
        Node::Table(rows) => {
            let out = texts_of_keys(rows);
            assert(node.tree()->Table_0.map_values(|row: (Tree, Tree)| row.0) =~= rows@.map_values(
                |row: (Node, Node)| row.0.tree(),
            ));
            out
        },
        _ => {
            let out: Vec<String> = Vec::new();
            assert(texts(out@) =~= Seq::<Seq<char>>::empty());
            out
        },
    }
}

/// A text, or every text in a sequence.
pub fn string_list(node: &Node) -> (r: Vec<String>)
    ensures
        texts(r@) == list_in(node.tree()),
{
    match node {
        Node::Text(s) => {
            let mut out: Vec<String> = Vec::new();
            out.push(s.clone());
            assert(texts(out@) =~= seq![s@]);
            out
        },
        Node::List(items) => {
            let out = texts_in(items);
            assert(node.tree()->List_0 =~= items@.map_values(|n: Node| n.tree()));
            out
        },
        _ => {
            let out: Vec<String> = Vec::new();
            assert(texts(out@) =~= Seq::<Seq<char>>::empty());
            out
        },
    }
}

/// The text of a scalar, whether it was read as a text, a boolean or an integer.
pub fn scalar_text(node: &Node) -> (r: Option<String>)
    ensures
        match r {
            Some(s) => scalar_of(node.tree()) == Some(s@),
            None => scalar_of(node.tree()) is None,
        },
{
    match node {
        Node::Text(s) => Some(s.clone()),
        Node::Bool(b) => {
            if *b {
                Some("true".to_owned())
            } else {
                Some("false".to_owned())
            }
        },
        Node::Integer(i) => Some(signed_decimal(*i)),
        _ => None,
    }
}

/// A field of a mapping is the value of the first row whose key is that text; a mapping without
/// such a row, and anything else than a mapping, has none.
pub proof fn first_row_with_the_key_counts(rows: Seq<(Tree, Tree)>, name: Seq<char>, at: int)
    requires
        0 <= at <= rows.len(),
        forall|i: int| 0 <= i < at ==> (#[trigger] rows[i]).0 != Tree::Text(name),
    ensures
        at < rows.len() && rows[at].0 == Tree::Text(name) ==> field_of(Tree::Table(rows), name)
            == Some(rows[at].1),
        at == rows.len() ==> field_of(Tree::Table(rows), name) is None,
{
    if at == rows.len() {
        lemma_value_in_absent(rows, name);
    } else if rows[at].0 == Tree::Text(name) {
        lemma_value_in_found(rows, name, at);
    }
}

/// Where a mapping has a field, some row has its key, and it is the first that does.
pub proof fn fields_have_a_row(rows: Seq<(Tree, Tree)>, name: Seq<char>) -> (at: int)
    ensures
        field_of(Tree::Table(rows), name) is Some ==> 0 <= at < rows.len() && rows[at] == (
            Tree::Text(name),
            field_of(Tree::Table(rows), name)->0,
        ),
        field_of(Tree::Table(rows), name) is None ==> at == rows.len(),
        forall|i: int| 0 <= i < at ==> (#[trigger] rows[i]).0 != Tree::Text(name),
    decreases rows.len(),
{
    if rows.len() == 0 {
        0
    } else if rows[0].0 == Tree::Text(name) {
        0
    } else {
        let rest = rows.skip(1);
        let at = fields_have_a_row(rest, name) + 1;
        assert forall|i: int| 0 <= i < at implies (#[trigger] rows[i]).0 != Tree::Text(name) by {
            if i > 0 {
                assert(rest[i - 1] == rows[i]);
            }
        }
        at
    }
}

/// The texts among some nodes are exactly those that some node is; the nodes one after the other
/// give their texts one after the other.
pub proof fn texts_are_picked_in_order(items: Seq<Tree>, more: Seq<Tree>, s: Seq<char>)
    ensures
        texts_among(items).contains(s) <==> items.contains(Tree::Text(s)),
        texts_among(items + more) == texts_among(items) + texts_among(more),
        texts_among(seq![Tree::Text(s)]) == seq![s],
    decreases items.len() + more.len(),
{
    let one = seq![Tree::Text(s)];
    assert(one.drop_last() =~= Seq::<Tree>::empty());
    assert(texts_among(Seq::<Tree>::empty()) =~= Seq::<Seq<char>>::empty());
    assert(texts_among(one) =~= seq![s]);
    if more.len() > 0 {
        assert((items + more).drop_last() =~= items + more.drop_last());
        assert((items + more).last() == more.last());
        texts_are_picked_in_order(items, more.drop_last(), s);
        assert(texts_among(items + more) =~= texts_among(items) + texts_among(more));
    } else {
        assert(items + more =~= items);
        assert(texts_among(items + more) =~= texts_among(items) + texts_among(more));
        if items.len() > 0 {
            let head = items.drop_last();
            texts_are_picked_in_order(head, more, s);
            let picked = texts_among(items);
            if texts_among(head).contains(s) {
                let i = choose|i: int| 0 <= i < head.len() && head[i] == Tree::Text(s);
                assert(items[i] == Tree::Text(s));
                let j = choose|j: int| 0 <= j < texts_among(head).len() && texts_among(head)[j] == s;
                assert(picked[j] == s);
            }
            if items.last() == Tree::Text(s) {
                assert(items[items.len() - 1] == Tree::Text(s));
                assert(picked[picked.len() - 1] == s);
            }
            if items.contains(Tree::Text(s)) {
                let i = choose|i: int| 0 <= i < items.len() && items[i] == Tree::Text(s);
                if i < head.len() {
                    assert(head[i] == Tree::Text(s));
                }
            }
            if picked.contains(s) {
                let j = choose|j: int| 0 <= j < picked.len() && picked[j] == s;
                if j < texts_among(head).len() {
                    assert(texts_among(head)[j] == s);
                }
            }
        }
    }
}

/// A name is in a node that is it, that lists it, or, for triggers, that has it as a key; and in
/// no other.
pub proof fn which_names_a_node_has(node: Tree, s: Seq<char>)
    ensures
        list_in(node).contains(s) <==> {
            ||| node == Tree::Text(s)
            ||| node matches Tree::List(items) && items.contains(Tree::Text(s))
        },
        names_in(node).contains(s) <==> {
            ||| node == Tree::Text(s)
            ||| node matches Tree::List(items) && items.contains(Tree::Text(s))
            ||| node matches Tree::Table(rows) && exists|i: int|
                0 <= i < rows.len() && (#[trigger] rows[i]).0 == Tree::Text(s)
        },
{
    match node {
        Tree::Text(t) => {
            assert(seq![t][0] == t);
        },
        Tree::List(items) => {
            texts_are_picked_in_order(items, Seq::empty(), s);
        },
        Tree::Table(rows) => {
            let keys = rows.map_values(|row: (Tree, Tree)| row.0);
            texts_are_picked_in_order(keys, Seq::empty(), s);
            if keys.contains(Tree::Text(s)) {
                let i = choose|i: int| 0 <= i < keys.len() && keys[i] == Tree::Text(s);
                assert(rows[i].0 == Tree::Text(s));
            }
            if exists|i: int| 0 <= i < rows.len() && (#[trigger] rows[i]).0 == Tree::Text(s) {
                let i = choose|i: int| 0 <= i < rows.len() && (#[trigger] rows[i]).0 == Tree::Text(
                    s,
                );
                assert(keys[i] == Tree::Text(s));
            }
        },
        _ => {},
    }
}

/// A scalar is told as it was written: a text as it is, a truth value as `true` or `false`, an
/// integer in decimal; anything else is no scalar.
pub proof fn scalars_are_told_as_written(node: Tree)
    ensures
        node matches Tree::Text(s) ==> scalar_of(node) == Some(s),
        node == Tree::Bool(true) ==> scalar_of(node) == Some(seq!['t', 'r', 'u', 'e']),
        node == Tree::Bool(false) ==> scalar_of(node) == Some(seq!['f', 'a', 'l', 's', 'e']),
        node matches Tree::Integer(n) ==> (scalar_of(node) matches Some(s) && s
            == signed_decimal_text(n)),
        node is List || node is Table || node is Other ==> scalar_of(node) is None,
{
    reveal_strlit("true");
    reveal_strlit("false");
    assert("true"@ =~= seq!['t', 'r', 'u', 'e']);
    assert("false"@ =~= seq!['f', 'a', 'l', 's', 'e']);
}

/// A plain node is shown as it is: a text, a truth value or a number by its value, and a sequence
/// or a mapping by its parts, all of them and in their order.
pub proof fn nodes_are_shown_as_they_are(
    text: String,
    truth: bool,
    number: i64,
    items: Vec<Node>,
    rows: Vec<(Node, Node)>,
    i: int,
)
    ensures
        Node::Text(text).tree() == Tree::Text(text@),
        Node::Bool(truth).tree() == Tree::Bool(truth),
        Node::Integer(number).tree() == Tree::Integer(number as int),
        Node::Other.tree() == Tree::Other,
        Node::List(items).tree() matches Tree::List(parts) && parts.len() == items@.len() && (0 <= i
            < items@.len() ==> parts[i] == items@[i].tree()),
        Node::Table(rows).tree() matches Tree::Table(parts) && parts.len() == rows@.len() && (0 <= i
            < rows@.len() ==> parts[i] == (rows@[i].0.tree(), rows@[i].1.tree())),
{
}

} // verus!
