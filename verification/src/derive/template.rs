//! The pieces of generated code: tokens, separated by spaces.

use vstd::prelude::*;

verus! {

/// One field of the reader: the boxed stream of a column.
pub open spec fn reader_field_text(ident: Seq<char>, ty: Seq<char>) -> Seq<char> {
    ident
        + " : :: std :: boxed :: Box < dyn :: core :: iter :: Iterator < Item = :: msca :: Outcome < "@
        + ty
        + " > > + 'a > , "@
}

/// One field of the reader: the boxed stream of a column.
pub fn reader_field(ident: &str, ty: &str) -> (text: String)
    ensures
        text@ == reader_field_text(ident@, ty@),
{
    let mut text = ident.to_owned();
    text.append(" : :: std :: boxed :: Box < dyn :: core :: iter :: Iterator < Item = :: msca :: Outcome < ");
    text.append(ty);
    text.append(" > > + 'a > , ");
    text
}

/// The reader, given its fields.
pub open spec fn reader_text(vis: Seq<char>, name: Seq<char>, fields: Seq<char>) -> Seq<char> {
    "# [doc = \" Generated composite reader: one boxed column stream per field.\"] # [doc = \"\"] # [doc = \" The stream types differ per column and are opaque, so each field is type-erased. `S`\"] # [doc = \" carries the source shape, which is what lets the fold monomorphize.\"] "@
        + vis
        + " struct "@
        + name
        + " < 'a , S > { "@
        + fields
        + " src : :: core :: marker :: PhantomData < S > , } "@
}

/// The reader, given its fields.
pub fn reader(vis: &str, name: &str, fields: &str) -> (text: String)
    ensures
        text@ == reader_text(vis@, name@, fields@),
{
    let mut text = "# [doc = \" Generated composite reader: one boxed column stream per field.\"] # [doc = \"\"] # [doc = \" The stream types differ per column and are opaque, so each field is type-erased. `S`\"] # [doc = \" carries the source shape, which is what lets the fold monomorphize.\"] ".to_owned();
    text.append(vis);
    text.append(" struct ");
    text.append(name);
    text.append(" < 'a , S > { ");
    text.append(fields);
    text.append(" src : :: core :: marker :: PhantomData < S > , } ");
    text
}

/// One element of a list.
pub open spec fn listed_text(item: Seq<char>) -> Seq<char> {
    item
        + " , "@
}

/// One element of a list.
pub fn listed(item: &str) -> (text: String)
    ensures
        text@ == listed_text(item@),
{
    let mut text = item.to_owned();
    text.append(" , ");
    text
}

/// The bound of one interior level of the resolved tree.
pub open spec fn combine_bound_text(owner: Seq<char>, next: Seq<char>, leg: Seq<char>) -> Seq<char> {
    owner
        + " : :: msca :: Combine < L0 = "@
        + next
        + " , L1 = "@
        + leg
        + " > , "@
}

/// The bound of one interior level of the resolved tree.
pub fn combine_bound(owner: &str, next: &str, leg: &str) -> (text: String)
    ensures
        text@ == combine_bound_text(owner@, next@, leg@),
{
    let mut text = owner.to_owned();
    text.append(" : :: msca :: Combine < L0 = ");
    text.append(next);
    text.append(" , L1 = ");
    text.append(leg);
    text.append(" > , ");
    text
}

/// The bound that fixes the item of one leg.
pub open spec fn build_bound_text(leg: Seq<char>, ty: Seq<char>) -> Seq<char> {
    leg
        + " : :: msca :: query :: Build < 'a , Item = "@
        + ty
        + " > , "@
}

/// The bound that fixes the item of one leg.
pub fn build_bound(leg: &str, ty: &str) -> (text: String)
    ensures
        text@ == build_bound_text(leg@, ty@),
{
    let mut text = leg.to_owned();
    text.append(" : :: msca :: query :: Build < 'a , Item = ");
    text.append(ty);
    text.append(" > , ");
    text
}

/// The binding of the two innermost legs.
pub open spec fn unpack_last_text(head: Seq<char>, leg: Seq<char>) -> Seq<char> {
    "let ("@
        + head
        + " , "@
        + leg
        + ") = :: msca :: Combine :: unpack (node) ; "@
}

/// The binding of the two innermost legs.
pub fn unpack_last(head: &str, leg: &str) -> (text: String)
    ensures
        text@ == unpack_last_text(head@, leg@),
{
    let mut text = "let (".to_owned();
    text.append(head);
    text.append(" , ");
    text.append(leg);
    text.append(") = :: msca :: Combine :: unpack (node) ; ");
    text
}

/// The binding of one leg and of what is left of the tree.
pub open spec fn unpack_next_text(leg: Seq<char>) -> Seq<char> {
    "let (node , "@
        + leg
        + ") = :: msca :: Combine :: unpack (node) ; "@
}

/// The binding of one leg and of what is left of the tree.
pub fn unpack_next(leg: &str) -> (text: String)
    ensures
        text@ == unpack_next_text(leg@),
{
    let mut text = "let (node , ".to_owned();
    text.append(leg);
    text.append(") = :: msca :: Combine :: unpack (node) ; ");
    text
}

/// The binding of the only leg.
pub open spec fn unpack_only_text(head: Seq<char>) -> Seq<char> {
    "let "@
        + head
        + " = node ; "@
}

/// The binding of the only leg.
pub fn unpack_only(head: &str) -> (text: String)
    ensures
        text@ == unpack_only_text(head@),
{
    let mut text = "let ".to_owned();
    text.append(head);
    text.append(" = node ; ");
    text
}

/// The boxed stream of one leg, built from a mask.
pub open spec fn boxed_text(ident: Seq<char>, mask: Seq<char>) -> Seq<char> {
    "let "@
        + ident
        + " = :: std :: boxed :: Box :: new (:: msca :: query :: Build :: build ("@
        + ident
        + " , "@
        + mask
        + ") ?) ; "@
}

/// The boxed stream of one leg, built from a mask.
pub fn boxed(ident: &str, mask: &str) -> (text: String)
    ensures
        text@ == boxed_text(ident@, mask@),
{
    let mut text = "let ".to_owned();
    text.append(ident);
    text.append(" = :: std :: boxed :: Box :: new (:: msca :: query :: Build :: build (");
    text.append(ident);
    text.append(" , ");
    text.append(mask);
    text.append(") ?) ; ");
    text
}

/// The implementation that assembles the reader, given its parts.
pub open spec fn composite_impl_text(name: Seq<char>, reader: Seq<char>, nodes: Seq<char>, builds: Seq<char>, bounds: Seq<char>, unpack: Seq<char>, build: Seq<char>, idents: Seq<char>) -> Seq<char> {
    "impl < 'a , S , "@
        + nodes
        + " "@
        + builds
        + " > :: msca :: Composite < 'a , S > for "@
        + name
        + " where S : :: msca :: query :: Select < 'a > , "@
        + bounds
        + " { type Reader = "@
        + reader
        + " < 'a , < S as :: msca :: query :: Select < 'a > > :: Build > ; fn new (src : S) -> :: core :: result :: Result < Self :: Reader , :: msca :: query :: Error > { let query = :: msca :: query :: Select :: query (& src) ; let mut mask = query . mask () ; let node = :: msca :: query :: Select :: select (src , & mut mask) ? ; "@
        + unpack
        + " "@
        + build
        + " let src = :: core :: marker :: PhantomData ; :: core :: result :: Result :: Ok ("@
        + reader
        + " { "@
        + idents
        + " src }) } } "@
}

/// The implementation that assembles the reader, given its parts.
pub fn composite_impl(name: &str, reader: &str, nodes: &str, builds: &str, bounds: &str, unpack: &str, build: &str, idents: &str) -> (text: String)
    ensures
        text@ == composite_impl_text(name@, reader@, nodes@, builds@, bounds@, unpack@, build@, idents@),
{
    let mut text = "impl < 'a , S , ".to_owned();
    text.append(nodes);
    text.append(" ");
    text.append(builds);
    text.append(" > :: msca :: Composite < 'a , S > for ");
    text.append(name);
    text.append(" where S : :: msca :: query :: Select < 'a > , ");
    text.append(bounds);
    text.append(" { type Reader = ");
    text.append(reader);
    text.append(" < 'a , < S as :: msca :: query :: Select < 'a > > :: Build > ; fn new (src : S) -> :: core :: result :: Result < Self :: Reader , :: msca :: query :: Error > { let query = :: msca :: query :: Select :: query (& src) ; let mut mask = query . mask () ; let node = :: msca :: query :: Select :: select (src , & mut mask) ? ; ");
    text.append(unpack);
    text.append(" ");
    text.append(build);
    text.append(" let src = :: core :: marker :: PhantomData ; :: core :: result :: Result :: Ok (");
    text.append(reader);
    text.append(" { ");
    text.append(idents);
    text.append(" src }) } } ");
    text
}

/// The opening of one column.
pub open spec fn opened_text(ident: Seq<char>, ty: Seq<char>, name: Seq<char>) -> Seq<char> {
    "let "@
        + ident
        + " = query . column :: < "@
        + ty
        + " > (\""@
        + name
        + "\") ? ; "@
}

/// The opening of one column.
pub fn opened(ident: &str, ty: &str, name: &str) -> (text: String)
    ensures
        text@ == opened_text(ident@, ty@, name@),
{
    let mut text = "let ".to_owned();
    text.append(ident);
    text.append(" = query . column :: < ");
    text.append(ty);
    text.append(" > (\"");
    text.append(name);
    text.append("\") ? ; ");
    text
}

/// The intersection of what came before with one more leg.
pub open spec fn conjunction_text(before: Seq<char>, leg: Seq<char>) -> Seq<char> {
    ":: msca :: Join :: and ("@
        + before
        + " , "@
        + leg
        + ") ? "@
}

/// The intersection of what came before with one more leg.
pub fn conjunction(before: &str, leg: &str) -> (text: String)
    ensures
        text@ == conjunction_text(before@, leg@),
{
    let mut text = ":: msca :: Join :: and (".to_owned();
    text.append(before);
    text.append(" , ");
    text.append(leg);
    text.append(") ? ");
    text
}

/// The source of one leg.
pub open spec fn source_text(ty: Seq<char>) -> Seq<char> {
    ":: msca :: query :: Src < 'a , "@
        + ty
        + " > "@
}

/// The source of one leg.
pub fn source(ty: &str) -> (text: String)
    ensures
        text@ == source_text(ty@),
{
    let mut text = ":: msca :: query :: Src < 'a , ".to_owned();
    text.append(ty);
    text.append(" > ");
    text
}

/// The type of an intersection.
pub open spec fn conjunct_text(before: Seq<char>, leg: Seq<char>) -> Seq<char> {
    ":: msca :: Conjunct < "@
        + before
        + " , "@
        + leg
        + " > "@
}

/// The type of an intersection.
pub fn conjunct(before: &str, leg: &str) -> (text: String)
    ensures
        text@ == conjunct_text(before@, leg@),
{
    let mut text = ":: msca :: Conjunct < ".to_owned();
    text.append(before);
    text.append(" , ");
    text.append(leg);
    text.append(" > ");
    text
}

/// The bounds that reading one column asks for.
pub open spec fn stream_bound_text(ty: Seq<char>) -> Seq<char> {
    ty
        + " : :: msca :: Read + :: core :: clone :: Clone + 'a , < "@
        + ty
        + " as :: msca :: Read > :: Src < 'a > : :: msca :: Deserialize < 'a , Ok = < "@
        + ty
        + " as :: msca :: Read > :: Src < 'a > > + :: msca :: Reader < 'a , "@
        + ty
        + " > , :: msca :: Schema : :: msca :: schema :: Unfolder < "@
        + ty
        + " > , "@
}

/// The bounds that reading one column asks for.
pub fn stream_bound(ty: &str) -> (text: String)
    ensures
        text@ == stream_bound_text(ty@),
{
    let mut text = ty.to_owned();
    text.append(" : :: msca :: Read + :: core :: clone :: Clone + 'a , < ");
    text.append(ty);
    text.append(" as :: msca :: Read > :: Src < 'a > : :: msca :: Deserialize < 'a , Ok = < ");
    text.append(ty);
    text.append(" as :: msca :: Read > :: Src < 'a > > + :: msca :: Reader < 'a , ");
    text.append(ty);
    text.append(" > , :: msca :: Schema : :: msca :: schema :: Unfolder < ");
    text.append(ty);
    text.append(" > , ");
    text
}

/// The implementation that reads every column, given its parts.
pub open spec fn unfiltered_impl_text(name: Seq<char>, reader: Seq<char>, bounds: Seq<char>, columns: Seq<char>, combined: Seq<char>, tree: Seq<char>) -> Seq<char> {
    "impl < 'a > :: msca :: Unfiltered < 'a > for "@
        + name
        + " where "@
        + bounds
        + " { fn unfiltered (query : & 'a :: msca :: Query < 'a > ,) -> :: core :: result :: Result < Self :: Src < 'a > , :: msca :: query :: Error > { "@
        + columns
        + " let combined = "@
        + combined
        + " ; < "@
        + name
        + " as :: msca :: Composite < 'a , "@
        + tree
        + " > > :: new (combined) } } impl :: msca :: Read for "@
        + name
        + " { type Src < 'a > = "@
        + reader
        + " < 'a , "@
        + tree
        + " > ; } "@
}

/// The implementation that reads every column, given its parts.
pub fn unfiltered_impl(name: &str, reader: &str, bounds: &str, columns: &str, combined: &str, tree: &str) -> (text: String)
    ensures
        text@ == unfiltered_impl_text(name@, reader@, bounds@, columns@, combined@, tree@),
{
    let mut text = "impl < 'a > :: msca :: Unfiltered < 'a > for ".to_owned();
    text.append(name);
    text.append(" where ");
    text.append(bounds);
    text.append(" { fn unfiltered (query : & 'a :: msca :: Query < 'a > ,) -> :: core :: result :: Result < Self :: Src < 'a > , :: msca :: query :: Error > { ");
    text.append(columns);
    text.append(" let combined = ");
    text.append(combined);
    text.append(" ; < ");
    text.append(name);
    text.append(" as :: msca :: Composite < 'a , ");
    text.append(tree);
    text.append(" > > :: new (combined) } } impl :: msca :: Read for ");
    text.append(name);
    text.append(" { type Src < 'a > = ");
    text.append(reader);
    text.append(" < 'a , ");
    text.append(tree);
    text.append(" > ; } ");
    text
}

/// The pull of one stream.
pub open spec fn pulled_text(ident: Seq<char>) -> Seq<char> {
    "let "@
        + ident
        + " = :: core :: iter :: Iterator :: next (& mut self . "@
        + ident
        + ") ? ; "@
}

/// The pull of one stream.
pub fn pulled(ident: &str) -> (text: String)
    ensures
        text@ == pulled_text(ident@),
{
    let mut text = "let ".to_owned();
    text.append(ident);
    text.append(" = :: core :: iter :: Iterator :: next (& mut self . ");
    text.append(ident);
    text.append(") ? ; ");
    text
}

/// The return of an error, before any outcome is inspected further.
pub open spec fn failed_text(ident: Seq<char>) -> Seq<char> {
    "if let :: msca :: Outcome :: Error (e) = "@
        + ident
        + " { return :: core :: convert :: Into :: into (:: msca :: Outcome :: Error (e)) ; } "@
}

/// The return of an error, before any outcome is inspected further.
pub fn failed(ident: &str) -> (text: String)
    ensures
        text@ == failed_text(ident@),
{
    let mut text = "if let :: msca :: Outcome :: Error (e) = ".to_owned();
    text.append(ident);
    text.append(" { return :: core :: convert :: Into :: into (:: msca :: Outcome :: Error (e)) ; } ");
    text
}

/// The inspection of one outcome.
pub open spec fn inspected_text(keep: Seq<char>, ident: Seq<char>) -> Seq<char> {
    "let ("@
        + keep
        + " , "@
        + ident
        + ") = match "@
        + ident
        + " { :: msca :: Outcome :: Include (item) => (true , item) , :: msca :: Outcome :: Exclude (item) => (false , item) , :: msca :: Outcome :: Error (e) => { return :: core :: convert :: Into :: into (:: msca :: Outcome :: Error (e)) ; } :: msca :: Outcome :: Absent => { return :: core :: convert :: Into :: into (:: msca :: Outcome :: Absent) ; } } ; "@
}

/// The inspection of one outcome.
pub fn inspected(keep: &str, ident: &str) -> (text: String)
    ensures
        text@ == inspected_text(keep@, ident@),
{
    let mut text = "let (".to_owned();
    text.append(keep);
    text.append(" , ");
    text.append(ident);
    text.append(") = match ");
    text.append(ident);
    text.append(" { :: msca :: Outcome :: Include (item) => (true , item) , :: msca :: Outcome :: Exclude (item) => (false , item) , :: msca :: Outcome :: Error (e) => { return :: core :: convert :: Into :: into (:: msca :: Outcome :: Error (e)) ; } :: msca :: Outcome :: Absent => { return :: core :: convert :: Into :: into (:: msca :: Outcome :: Absent) ; } } ; ");
    text
}

/// The implementation that rebuilds one item after the other, given its parts.
pub open spec fn iterator_impl_text(name: Seq<char>, reader: Seq<char>, nodes: Seq<char>, bounds: Seq<char>, steps: Seq<char>, idents: Seq<char>, verdict: Seq<char>) -> Seq<char> {
    "impl < 'a , N , "@
        + nodes
        + " > :: core :: iter :: Iterator for "@
        + reader
        + " < 'a , N > where "@
        + bounds
        + " { type Item = :: msca :: Outcome < "@
        + name
        + " > ; fn next (& mut self) -> :: core :: option :: Option < :: msca :: Outcome < "@
        + name
        + " > > { "@
        + steps
        + " let item = "@
        + name
        + " { "@
        + idents
        + " } ; let outcome = match "@
        + verdict
        + " { true => :: msca :: Outcome :: Include (item) , false => :: msca :: Outcome :: Exclude (item) , } ; :: core :: convert :: Into :: into (outcome) } } "@
}

/// The implementation that rebuilds one item after the other, given its parts.
pub fn iterator_impl(name: &str, reader: &str, nodes: &str, bounds: &str, steps: &str, idents: &str, verdict: &str) -> (text: String)
    ensures
        text@ == iterator_impl_text(name@, reader@, nodes@, bounds@, steps@, idents@, verdict@),
{
    let mut text = "impl < 'a , N , ".to_owned();
    text.append(nodes);
    text.append(" > :: core :: iter :: Iterator for ");
    text.append(reader);
    text.append(" < 'a , N > where ");
    text.append(bounds);
    text.append(" { type Item = :: msca :: Outcome < ");
    text.append(name);
    text.append(" > ; fn next (& mut self) -> :: core :: option :: Option < :: msca :: Outcome < ");
    text.append(name);
    text.append(" > > { ");
    text.append(steps);
    text.append(" let item = ");
    text.append(name);
    text.append(" { ");
    text.append(idents);
    text.append(" } ; let outcome = match ");
    text.append(verdict);
    text.append(" { true => :: msca :: Outcome :: Include (item) , false => :: msca :: Outcome :: Exclude (item) , } ; :: core :: convert :: Into :: into (outcome) } } ");
    text
}

/// The bound of the innermost node.
pub open spec fn ascent_last_text(owner: Seq<char>) -> Seq<char> {
    owner
        + " : :: msca :: Combine , "@
}

/// The bound of the innermost node.
pub fn ascent_last(owner: &str) -> (text: String)
    ensures
        text@ == ascent_last_text(owner@),
{
    let mut text = owner.to_owned();
    text.append(" : :: msca :: Combine , ");
    text
}

/// The bound of one node above another.
pub open spec fn ascent_next_text(owner: Seq<char>, next: Seq<char>) -> Seq<char> {
    owner
        + " : :: msca :: Combine < L0 = "@
        + next
        + " > , "@
}

/// The bound of one node above another.
pub fn ascent_next(owner: &str, next: &str) -> (text: String)
    ensures
        text@ == ascent_next_text(owner@, next@),
{
    let mut text = owner.to_owned();
    text.append(" : :: msca :: Combine < L0 = ");
    text.append(next);
    text.append(" > , ");
    text
}

/// The verdict of a node over what came before and one more leg.
pub open spec fn fold_text(node: Seq<char>, before: Seq<char>, keep: Seq<char>) -> Seq<char> {
    "< "@
        + node
        + " as :: msca :: Combine > :: combine ("@
        + before
        + " , "@
        + keep
        + ") "@
}

/// The verdict of a node over what came before and one more leg.
pub fn fold(node: &str, before: &str, keep: &str) -> (text: String)
    ensures
        text@ == fold_text(node@, before@, keep@),
{
    let mut text = "< ".to_owned();
    text.append(node);
    text.append(" as :: msca :: Combine > :: combine (");
    text.append(before);
    text.append(" , ");
    text.append(keep);
    text.append(") ");
    text
}

/// The items in an anonymous block, where they collide with nothing.
pub open spec fn block_text(structure: Seq<char>, composite: Seq<char>, iterate: Seq<char>, unfiltered: Seq<char>) -> Seq<char> {
    "const _ : () = { "@
        + structure
        + " "@
        + composite
        + " "@
        + iterate
        + " "@
        + unfiltered
        + " } ; "@
}

/// The items in an anonymous block, where they collide with nothing.
pub fn block(structure: &str, composite: &str, iterate: &str, unfiltered: &str) -> (text: String)
    ensures
        text@ == block_text(structure@, composite@, iterate@, unfiltered@),
{
    let mut text = "const _ : () = { ".to_owned();
    text.append(structure);
    text.append(" ");
    text.append(composite);
    text.append(" ");
    text.append(iterate);
    text.append(" ");
    text.append(unfiltered);
    text.append(" } ; ");
    text
}

} // verus!
