//! File extensions GitHub Linguist knows, as a `stem.ext` token may carry them.
use vstd::prelude::*;

use crate::chars::{less_text, split_on, split_ranges, text_less, to_chars};
use crate::order::{sort_items, sorted, views, Ordered};

verus! {

/// Lowercased, single-segment extensions without the leading dot, each once, separated by
/// single spaces and grouped by ending: extensions that share an ending sit together.
pub const EXTENSION_LIST: &'static str = "c++ h++ x10 f90 a51 psc1 psd1 psm1 ps1 jinja2 db2 r2 smt2 f03 php3 r3 au3 py3 1c4 g4 m4 \
    p4 php4 mq4 f95 json5 php5 mq5 pod6 pl6 pm6 p6 es6 f77 f08 p8 imba vba mathematica ada \
    agda lagda tea jinja ninja scala vala tla sma opa sra dita lua wlua ava java b prefab \
    matlab tab bb kicad_pcb adb gdb eb reb bib gdnlib xsjslib xib pkb plb vmb nb ipynb cob \
    pb rb erb jsb pytb pub vb c tmac pac tac cc tcc idc sdc ec spec podspec mspec gemspec \
    pluginspec xspec cfc cljc mc nc inc jsonc asciidoc rdoc ooc roc xproc toc spc upc arc \
    irbrc vimrc nanorc prc sc asc hsc rsc avsc uc xc d x3d unity3d scad jscad scd red sed \
    sfd gd vhd mermaid kid liquid mkd rbuild jsonld sld md cmd mmd rmd xtend god mod \
    kicad_mod pmod pod nimrod pd rd storyboard asd xsd dtd rktd pxd e grace ice resource sce \
    jade blade glade xojo_code gcode pde pyde coffee litcoffee lfe sage mustache cake jake \
    make cmake rake pike nimble gradle sqlrpgle dockerfile textile oxygene zone nse \
    vstemplate tfstate rbuistate svelte latte vue f bdf cdf rdf srdf urdf udf def diff xliff \
    gf vhf gif self glf xlf nf abnf ebnf inf conf apacheconf nginxconf ipf sqf wsf tf muf \
    frag tag reg cfg nim_cfg xsp-config pig sig swig twig zig yang ring dyalog prolog \
    weechatlog rg org prg aug svg h sch patch dpatch hh rnh ph mqh sh ash bash csh tcsh fsh \
    gsh fish nsh rsh vsh zsh fth cuh vh svh fxh oxh i pbi rbi sci di rei gi fcgi psgi wsgi \
    vhi mkii ji wiki mediawiki smali mli lmi xmi gni ini vapi pri fsi nsi dtsi ui mkvi xi \
    pxi wxi pyi j obj clj proj vbproj csproj fsproj lvproj vcxproj sj kak mak pck reek ahk \
    ik njk logtalk wlk mk workbook cook vark mask auk awk gawk mawk l al bal cabal pascal \
    opal metal rabl cbl scrbl cl dcl ecl hcl ncl opencl tcl vcl ddl vhdl aidl webidl wsdl el \
    omgrofl jsfl zil jl pkl ll dhall mll qll ml scaml haml raml xaml yaml zcml eml gml mjml \
    kml lookml toml qml sml tml html vbhtml phtml rhtml shtml cshtml xhtml xml axml scxml \
    eclxml mxml grxml vxml yml nl jsonl ol rebol cobol lol tool sol pl apl bpl chpl ampl \
    zimpl tmpl zmpl tpl gtpl xpl zpl ql cql gql graphql sparql sql plsql xql rl erl perl hrl \
    url xrl yrl sl bsl dsl podsl wgsl lsl glsl hlsl xsl hxsl tl ftl rktl mtl ttl xul wl txl \
    wxl styl bzl m scm dm em cfm dfm slim nim vim elm mm com eliom pm cppm xqm frm rbfrm orm \
    asm nasm pasm jsm tm htm ktm xm n lean hlean fan dylan man pan stan edn mkdn shen gn \
    odin spin neon sh-session mcfunction ceylon moon ron cson meson bison json geojson ston \
    asn fun mdwn mkdown markdown mdown pwn mao gco sco udo veo go rego religo nlogo pogo vho \
    io kojo mako marko golo mo ino rno uno boo moo po xacro pro astro lasso proto textproto \
    oxo p abap gap snap yap zap xzap nbp cp ccp bicep zep fp gp php snip clp qhelp sthlp \
    objdump xmp capnp desktop pp app cpp fpp hpp ipp tpp nqp sp asp gsp lisp wisp jsp lsp \
    sexp cyp gyp pyp yyp q jq rq xq r xojo_toolbar rbtbar star yar cr idr shader fshader \
    vshader builder jbuilder watchr mir kr nr for thor factor lpr intr ur s as bas rbbas pas \
    sas bs hbs qbs vbs cs emacs ads reds es properties res rbres fs prefs gs vssettings hs \
    lhs vhs js cjs ejs pegjs ijs cljs mjs sjs ssjs xsjs ks pks ls als cls decls pls graphqls \
    sls ms gms nims os ps cps phps mumps props sps qs rs handlebars tfvars brs purs ss \
    eclass sass css pcss scss postcss less rmiss mss nss rss sss ts bats cats dats cts dts \
    snippets kts sagews xs rbxs exs wxs zs t bat mat maxpat wat pbt sbt ct libsonnet snippet \
    thrift swift vht xht rchit kit nit kt rkt volt plt xslt wlt mt smt mint robot dot riot \
    plot gnuplot pot parrot pt scpt phpt xojo_script escript applescript angelscript dart \
    vert grt xojo_report srt st wast webmanifest vsixmanifest rest fst gst plist rst tst \
    just nut mxt txt myt pyt cu mu nu xojo_menu gnu rbmnu ru cirru sru tu xu v sfv gv mkiv \
    elv pov sv bsv csv tsv w rbw cw vhw xojo_window workflow prw srw vw pyw numpyw x bbx rbx \
    mdx ex regex lex flex jflex apex rex tex bibtex fx hx cljx plx bmx asmx nginx ox aspx \
    pprx vrx csx fsx gsx jsx cjsx rsx tsx ltx ux flux tmux cxx rexx hxx pyx y ruby cy \
    mdpolicy fancy monkey whiley nearley fy hy thy smithy ly ily jelly mly ny pony py cpy \
    numpy rpy xpy xqy xquery asy sty gvy groovy yy rviz oz";

/// The extensions of the list, in list order.
pub open spec fn linguist_words() -> Seq<Seq<char>> {
    split_on(EXTENSION_LIST@, ' ')
}

/// Whether `extension` is in the list.
pub open spec fn is_linguist(extension: Seq<char>) -> bool {
    linguist_words().contains(extension)
}

/// Whether `chars[a..b]` spells `word`.
fn spells(chars: &Vec<char>, a: usize, b: usize, word: &Vec<char>) -> (r: bool)
    requires
        a <= b <= chars@.len(),
    ensures
        r == (chars@.subrange(a as int, b as int) == word@),
{
    if b - a != word.len() {
        return false;
    }
    let mut i: usize = 0;
    while i < word.len()
        invariant
            i <= word@.len(),
            b - a == word@.len(),
            a <= b <= chars@.len(),
            forall|j: int| 0 <= j < i ==> chars@[a + j] == word@[j],
        decreases word.len() - i,
    {
        if chars[a + i] != word[i] {
            assert(chars@.subrange(a as int, b as int)[i as int] != word@[i as int]);
            return false;
        }
        i += 1;
    }
    assert(chars@.subrange(a as int, b as int) =~= word@);
    true
}

/// Whether `extension`, already lowercased, is one Linguist knows.
pub fn is_linguist_extension(extension: &str) -> (b: bool)
    ensures
        b == is_linguist(extension@),
{
    let chars = to_chars(EXTENSION_LIST);
    let ranges = split_ranges(&chars, ' ');
    let word = to_chars(extension);
    let ghost words = linguist_words();
    let mut k: usize = 0;
    while k < ranges.len()
        invariant
            k <= ranges@.len(),
            chars@ == EXTENSION_LIST@,
            word@ == extension@,
            words == linguist_words(),
            crate::chars::ranges_of_split(chars@, ' ', ranges@),
            forall|j: int| 0 <= j < k ==> (#[trigger] words[j]) != extension@,
        decreases ranges.len() - k,
    {
        let (a, b) = ranges[k];
        assert(words[k as int] == chars@.subrange(a as int, b as int));
        if spells(&chars, a, b, &word) {
            assert(words[k as int] == extension@);
            return true;
        }
        k += 1;
    }
    false
}

impl<'a> Ordered for &'a str {
    /// Text order, character by character.
    open spec fn before(a: Seq<char>, b: Seq<char>) -> bool {
        text_less(a, b)
    }

    fn less(&self, other: &Self) -> (b: bool) {
        less_text(*self, *other)
    }
}

/// Every extension Linguist knows, in text order.
pub fn linguist_extensions() -> (r: Vec<&'static str>)
    ensures
        views(r@) == sorted::<&'static str>(linguist_words()),
{
    let chars = to_chars(EXTENSION_LIST);
    let ranges = split_ranges(&chars, ' ');
    let ghost words = linguist_words();
    let mut all: Vec<&'static str> = Vec::new();
    let mut k: usize = 0;
    while k < ranges.len()
        invariant
            k <= ranges@.len(),
            chars@ == EXTENSION_LIST@,
            words == linguist_words(),
            crate::chars::ranges_of_split(chars@, ' ', ranges@),
            views(all@) == words.take(k as int),
        decreases ranges.len() - k,
    {
        let (a, b) = ranges[k];
        let piece: &'static str = EXTENSION_LIST.substring_char(a, b);
        let ghost before = views(all@);
        all.push(piece);
        assert(views(all@) =~= before.push(words[k as int]));
        assert(words.take(k + 1) =~= words.take(k as int).push(words[k as int]));
        k += 1;
    }
    assert(words.take(k as int) =~= words);
    sort_items(all)
}

} // verus!
