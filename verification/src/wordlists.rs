//! The fixed word lists the text-processing modules consult.
use vstd::prelude::*;

verus! {

/// The views of a sequence of string slices.
pub open spec fn str_views(s: Seq<&str>) -> Seq<Seq<char>> {
    s.map_values(|x: &str| x@)
}

/// Part 0 of `short_stop_words`.
pub open spec fn short_stop_words_0() -> Seq<Seq<char>> {
    seq![
        "a"@,
        "about"@,
        "above"@,
        "after"@,
        "again"@,
        "against"@,
        "all"@,
        "am"@,
        "an"@,
        "and"@,
        "any"@,
        "anyone"@,
        "anything"@,
        "are"@,
        "as"@,
        "at"@,
        "be"@,
        "because"@,
        "been"@,
        "before"@,
    ]
}

fn push_short_stop_words_0(v: &mut Vec<&'static str>)
    ensures
        str_views(final(v)@) == str_views(old(v)@) + short_stop_words_0(),
{
    let ghost start = v@;
    v.push("a");
    v.push("about");
    v.push("above");
    v.push("after");
    v.push("again");
    v.push("against");
    v.push("all");
    v.push("am");
    v.push("an");
    v.push("and");
    v.push("any");
    v.push("anyone");
    v.push("anything");
    v.push("are");
    v.push("as");
    v.push("at");
    v.push("be");
    v.push("because");
    v.push("been");
    v.push("before");
    assert(str_views(v@) =~= str_views(start) + short_stop_words_0());
}

/// Part 1 of `short_stop_words`.
pub open spec fn short_stop_words_1() -> Seq<Seq<char>> {
    seq![
        "being"@,
        "below"@,
        "between"@,
        "both"@,
        "but"@,
        "by"@,
        "can"@,
        "did"@,
        "do"@,
        "does"@,
        "doing"@,
        "don"@,
        "down"@,
        "during"@,
        "each"@,
        "few"@,
        "for"@,
        "from"@,
        "further"@,
        "had"@,
    ]
}

fn push_short_stop_words_1(v: &mut Vec<&'static str>)
    ensures
        str_views(final(v)@) == str_views(old(v)@) + short_stop_words_1(),
{
    let ghost start = v@;
    v.push("being");
    v.push("below");
    v.push("between");
    v.push("both");
    v.push("but");
    v.push("by");
    v.push("can");
    v.push("did");
    v.push("do");
    v.push("does");
    v.push("doing");
    v.push("don");
    v.push("down");
    v.push("during");
    v.push("each");
    v.push("few");
    v.push("for");
    v.push("from");
    v.push("further");
    v.push("had");
    assert(str_views(v@) =~= str_views(start) + short_stop_words_1());
}

/// Part 2 of `short_stop_words`.
pub open spec fn short_stop_words_2() -> Seq<Seq<char>> {
    seq![
        "has"@,
        "have"@,
        "having"@,
        "he"@,
        "her"@,
        "here"@,
        "hers"@,
        "herself"@,
        "him"@,
        "himself"@,
        "his"@,
        "how"@,
        "i"@,
        "if"@,
        "in"@,
        "into"@,
        "is"@,
        "it"@,
        "its"@,
        "itself"@,
    ]
}

fn push_short_stop_words_2(v: &mut Vec<&'static str>)
    ensures
        str_views(final(v)@) == str_views(old(v)@) + short_stop_words_2(),
{
    let ghost start = v@;
    v.push("has");
    v.push("have");
    v.push("having");
    v.push("he");
    v.push("her");
    v.push("here");
    v.push("hers");
    v.push("herself");
    v.push("him");
    v.push("himself");
    v.push("his");
    v.push("how");
    v.push("i");
    v.push("if");
    v.push("in");
    v.push("into");
    v.push("is");
    v.push("it");
    v.push("its");
    v.push("itself");
    assert(str_views(v@) =~= str_views(start) + short_stop_words_2());
}

/// Part 3 of `short_stop_words`.
pub open spec fn short_stop_words_3() -> Seq<Seq<char>> {
    seq![
        "just"@,
        "me"@,
        "more"@,
        "most"@,
        "my"@,
        "myself"@,
        "no"@,
        "nor"@,
        "not"@,
        "now"@,
        "of"@,
        "off"@,
        "on"@,
        "once"@,
        "only"@,
        "or"@,
        "other"@,
        "our"@,
        "ours"@,
        "ourselves"@,
    ]
}

fn push_short_stop_words_3(v: &mut Vec<&'static str>)
    ensures
        str_views(final(v)@) == str_views(old(v)@) + short_stop_words_3(),
{
    let ghost start = v@;
    v.push("just");
    v.push("me");
    v.push("more");
    v.push("most");
    v.push("my");
    v.push("myself");
    v.push("no");
    v.push("nor");
    v.push("not");
    v.push("now");
    v.push("of");
    v.push("off");
    v.push("on");
    v.push("once");
    v.push("only");
    v.push("or");
    v.push("other");
    v.push("our");
    v.push("ours");
    v.push("ourselves");
    assert(str_views(v@) =~= str_views(start) + short_stop_words_3());
}

/// Part 4 of `short_stop_words`.
pub open spec fn short_stop_words_4() -> Seq<Seq<char>> {
    seq![
        "out"@,
        "over"@,
        "own"@,
        "s"@,
        "same"@,
        "she"@,
        "should"@,
        "so"@,
        "some"@,
        "someone"@,
        "something"@,
        "t"@,
        "than"@,
        "that"@,
        "the"@,
        "their"@,
        "theirs"@,
        "them"@,
        "themselves"@,
        "then"@,
    ]
}

fn push_short_stop_words_4(v: &mut Vec<&'static str>)
    ensures
        str_views(final(v)@) == str_views(old(v)@) + short_stop_words_4(),
{
    let ghost start = v@;
    v.push("out");
    v.push("over");
    v.push("own");
    v.push("s");
    v.push("same");
    v.push("she");
    v.push("should");
    v.push("so");
    v.push("some");
    v.push("someone");
    v.push("something");
    v.push("t");
    v.push("than");
    v.push("that");
    v.push("the");
    v.push("their");
    v.push("theirs");
    v.push("them");
    v.push("themselves");
    v.push("then");
    assert(str_views(v@) =~= str_views(start) + short_stop_words_4());
}

/// Part 5 of `short_stop_words`.
pub open spec fn short_stop_words_5() -> Seq<Seq<char>> {
    seq![
        "there"@,
        "these"@,
        "they"@,
        "this"@,
        "those"@,
        "through"@,
        "to"@,
        "too"@,
        "under"@,
        "until"@,
        "up"@,
        "very"@,
        "was"@,
        "we"@,
        "were"@,
        "what"@,
        "when"@,
        "where"@,
        "which"@,
        "who"@,
    ]
}

fn push_short_stop_words_5(v: &mut Vec<&'static str>)
    ensures
        str_views(final(v)@) == str_views(old(v)@) + short_stop_words_5(),
{
    let ghost start = v@;
    v.push("there");
    v.push("these");
    v.push("they");
    v.push("this");
    v.push("those");
    v.push("through");
    v.push("to");
    v.push("too");
    v.push("under");
    v.push("until");
    v.push("up");
    v.push("very");
    v.push("was");
    v.push("we");
    v.push("were");
    v.push("what");
    v.push("when");
    v.push("where");
    v.push("which");
    v.push("who");
    assert(str_views(v@) =~= str_views(start) + short_stop_words_5());
}

/// Part 6 of `short_stop_words`.
pub open spec fn short_stop_words_6() -> Seq<Seq<char>> {
    seq![
        "whom"@,
        "why"@,
        "will"@,
        "with"@,
        "you"@,
        "your"@,
        "yours"@,
        "yourself"@,
        "yourselves"@,
    ]
}

fn push_short_stop_words_6(v: &mut Vec<&'static str>)
    ensures
        str_views(final(v)@) == str_views(old(v)@) + short_stop_words_6(),
{
    let ghost start = v@;
    v.push("whom");
    v.push("why");
    v.push("will");
    v.push("with");
    v.push("you");
    v.push("your");
    v.push("yours");
    v.push("yourself");
    v.push("yourselves");
    assert(str_views(v@) =~= str_views(start) + short_stop_words_6());
}

/// English stop words ignored by keyword extraction and fact extraction (sorted).
pub open spec fn short_stop_words() -> Seq<Seq<char>> {
    short_stop_words_0() + short_stop_words_1() + short_stop_words_2() + short_stop_words_3() + short_stop_words_4() + short_stop_words_5() + short_stop_words_6()
}

/// The words of `short_stop_words`, in order.
pub fn short_stop_word_list() -> (v: Vec<&'static str>)
    ensures
        str_views(v@) == short_stop_words(),
{
    let mut v: Vec<&'static str> = Vec::new();
    assert(str_views(v@) =~= Seq::<Seq<char>>::empty());
    push_short_stop_words_0(&mut v);
    push_short_stop_words_1(&mut v);
    push_short_stop_words_2(&mut v);
    push_short_stop_words_3(&mut v);
    push_short_stop_words_4(&mut v);
    push_short_stop_words_5(&mut v);
    push_short_stop_words_6(&mut v);
    assert(str_views(v@) =~= short_stop_words());
    v
}

/// Part 0 of `common_nouns`.
pub open spec fn common_nouns_0() -> Seq<Seq<char>> {
    seq![
        "app"@,
        "application"@,
        "code"@,
        "compiler"@,
        "computer"@,
        "database"@,
        "db"@,
        "developer"@,
        "engine"@,
        "engineer"@,
        "file"@,
        "framework"@,
        "hardware"@,
        "interpreter"@,
        "job"@,
        "language"@,
        "library"@,
        "machine"@,
        "program"@,
        "programmer"@,
    ]
}

fn push_common_nouns_0(v: &mut Vec<&'static str>)
    ensures
        str_views(final(v)@) == str_views(old(v)@) + common_nouns_0(),
{
    let ghost start = v@;
    v.push("app");
    v.push("application");
    v.push("code");
    v.push("compiler");
    v.push("computer");
    v.push("database");
    v.push("db");
    v.push("developer");
    v.push("engine");
    v.push("engineer");
    v.push("file");
    v.push("framework");
    v.push("hardware");
    v.push("interpreter");
    v.push("job");
    v.push("language");
    v.push("library");
    v.push("machine");
    v.push("program");
    v.push("programmer");
    assert(str_views(v@) =~= str_views(start) + common_nouns_0());
}

/// Part 1 of `common_nouns`.
pub open spec fn common_nouns_1() -> Seq<Seq<char>> {
    seq![
        "project"@,
        "server"@,
        "software"@,
        "system"@,
        "thing"@,
        "things"@,
        "tool"@,
        "user"@,
        "work"@,
    ]
}

fn push_common_nouns_1(v: &mut Vec<&'static str>)
    ensures
        str_views(final(v)@) == str_views(old(v)@) + common_nouns_1(),
{
    let ghost start = v@;
    v.push("project");
    v.push("server");
    v.push("software");
    v.push("system");
    v.push("thing");
    v.push("things");
    v.push("tool");
    v.push("user");
    v.push("work");
    assert(str_views(v@) =~= str_views(start) + common_nouns_1());
}

/// Generic lowercase nouns that never name an entity (sorted).
pub open spec fn common_nouns() -> Seq<Seq<char>> {
    common_nouns_0() + common_nouns_1()
}

/// The words of `common_nouns`, in order.
pub fn common_noun_list() -> (v: Vec<&'static str>)
    ensures
        str_views(v@) == common_nouns(),
{
    let mut v: Vec<&'static str> = Vec::new();
    assert(str_views(v@) =~= Seq::<Seq<char>>::empty());
    push_common_nouns_0(&mut v);
    push_common_nouns_1(&mut v);
    assert(str_views(v@) =~= common_nouns());
    v
}

/// Part 0 of `long_stop_words`.
pub open spec fn long_stop_words_0() -> Seq<Seq<char>> {
    seq![
        "a"@,
        "about"@,
        "above"@,
        "after"@,
        "again"@,
        "against"@,
        "all"@,
        "am"@,
        "an"@,
        "and"@,
        "another"@,
        "any"@,
        "anyone"@,
        "anything"@,
        "are"@,
        "arent"@,
        "as"@,
        "at"@,
        "be"@,
        "became"@,
    ]
}

fn push_long_stop_words_0(v: &mut Vec<&'static str>)
    ensures
        str_views(final(v)@) == str_views(old(v)@) + long_stop_words_0(),
{
    let ghost start = v@;
    v.push("a");
    v.push("about");
    v.push("above");
    v.push("after");
    v.push("again");
    v.push("against");
    v.push("all");
    v.push("am");
    v.push("an");
    v.push("and");
    v.push("another");
    v.push("any");
    v.push("anyone");
    v.push("anything");
    v.push("are");
    v.push("arent");
    v.push("as");
    v.push("at");
    v.push("be");
    v.push("became");
    assert(str_views(v@) =~= str_views(start) + long_stop_words_0());
}

/// Part 1 of `long_stop_words`.
pub open spec fn long_stop_words_1() -> Seq<Seq<char>> {
    seq![
        "because"@,
        "become"@,
        "becomes"@,
        "been"@,
        "before"@,
        "being"@,
        "below"@,
        "between"@,
        "both"@,
        "but"@,
        "by"@,
        "can"@,
        "cannot"@,
        "cant"@,
        "could"@,
        "couldnt"@,
        "did"@,
        "didnt"@,
        "do"@,
        "does"@,
    ]
}

fn push_long_stop_words_1(v: &mut Vec<&'static str>)
    ensures
        str_views(final(v)@) == str_views(old(v)@) + long_stop_words_1(),
{
    let ghost start = v@;
    v.push("because");
    v.push("become");
    v.push("becomes");
    v.push("been");
    v.push("before");
    v.push("being");
    v.push("below");
    v.push("between");
    v.push("both");
    v.push("but");
    v.push("by");
    v.push("can");
    v.push("cannot");
    v.push("cant");
    v.push("could");
    v.push("couldnt");
    v.push("did");
    v.push("didnt");
    v.push("do");
    v.push("does");
    assert(str_views(v@) =~= str_views(start) + long_stop_words_1());
}

/// Part 2 of `long_stop_words`.
pub open spec fn long_stop_words_2() -> Seq<Seq<char>> {
    seq![
        "doesnt"@,
        "doing"@,
        "dont"@,
        "down"@,
        "during"@,
        "each"@,
        "either"@,
        "else"@,
        "elsewhere"@,
        "enough"@,
        "etc"@,
        "even"@,
        "ever"@,
        "every"@,
        "everyone"@,
        "everything"@,
        "everywhere"@,
        "few"@,
        "for"@,
        "from"@,
    ]
}

fn push_long_stop_words_2(v: &mut Vec<&'static str>)
    ensures
        str_views(final(v)@) == str_views(old(v)@) + long_stop_words_2(),
{
    let ghost start = v@;
    v.push("doesnt");
    v.push("doing");
    v.push("dont");
    v.push("down");
    v.push("during");
    v.push("each");
    v.push("either");
    v.push("else");
    v.push("elsewhere");
    v.push("enough");
    v.push("etc");
    v.push("even");
    v.push("ever");
    v.push("every");
    v.push("everyone");
    v.push("everything");
    v.push("everywhere");
    v.push("few");
    v.push("for");
    v.push("from");
    assert(str_views(v@) =~= str_views(start) + long_stop_words_2());
}

/// Part 3 of `long_stop_words`.
pub open spec fn long_stop_words_3() -> Seq<Seq<char>> {
    seq![
        "further"@,
        "had"@,
        "hadnt"@,
        "has"@,
        "hasnt"@,
        "have"@,
        "havent"@,
        "having"@,
        "he"@,
        "her"@,
        "here"@,
        "hers"@,
        "herself"@,
        "him"@,
        "himself"@,
        "his"@,
        "how"@,
        "however"@,
        "i"@,
        "if"@,
    ]
}

fn push_long_stop_words_3(v: &mut Vec<&'static str>)
    ensures
        str_views(final(v)@) == str_views(old(v)@) + long_stop_words_3(),
{
    let ghost start = v@;
    v.push("further");
    v.push("had");
    v.push("hadnt");
    v.push("has");
    v.push("hasnt");
    v.push("have");
    v.push("havent");
    v.push("having");
    v.push("he");
    v.push("her");
    v.push("here");
    v.push("hers");
    v.push("herself");
    v.push("him");
    v.push("himself");
    v.push("his");
    v.push("how");
    v.push("however");
    v.push("i");
    v.push("if");
    assert(str_views(v@) =~= str_views(start) + long_stop_words_3());
}

/// Part 4 of `long_stop_words`.
pub open spec fn long_stop_words_4() -> Seq<Seq<char>> {
    seq![
        "in"@,
        "into"@,
        "is"@,
        "isnt"@,
        "it"@,
        "its"@,
        "itself"@,
        "just"@,
        "least"@,
        "less"@,
        "let"@,
        "lets"@,
        "like"@,
        "likely"@,
        "many"@,
        "me"@,
        "might"@,
        "more"@,
        "most"@,
        "must"@,
    ]
}

fn push_long_stop_words_4(v: &mut Vec<&'static str>)
    ensures
        str_views(final(v)@) == str_views(old(v)@) + long_stop_words_4(),
{
    let ghost start = v@;
    v.push("in");
    v.push("into");
    v.push("is");
    v.push("isnt");
    v.push("it");
    v.push("its");
    v.push("itself");
    v.push("just");
    v.push("least");
    v.push("less");
    v.push("let");
    v.push("lets");
    v.push("like");
    v.push("likely");
    v.push("many");
    v.push("me");
    v.push("might");
    v.push("more");
    v.push("most");
    v.push("must");
    assert(str_views(v@) =~= str_views(start) + long_stop_words_4());
}

/// Part 5 of `long_stop_words`.
pub open spec fn long_stop_words_5() -> Seq<Seq<char>> {
    seq![
        "my"@,
        "myself"@,
        "no"@,
        "nor"@,
        "not"@,
        "nothing"@,
        "now"@,
        "of"@,
        "off"@,
        "on"@,
        "once"@,
        "only"@,
        "or"@,
        "other"@,
        "others"@,
        "ought"@,
        "our"@,
        "ours"@,
        "ourselves"@,
        "out"@,
    ]
}

fn push_long_stop_words_5(v: &mut Vec<&'static str>)
    ensures
        str_views(final(v)@) == str_views(old(v)@) + long_stop_words_5(),
{
    let ghost start = v@;
    v.push("my");
    v.push("myself");
    v.push("no");
    v.push("nor");
    v.push("not");
    v.push("nothing");
    v.push("now");
    v.push("of");
    v.push("off");
    v.push("on");
    v.push("once");
    v.push("only");
    v.push("or");
    v.push("other");
    v.push("others");
    v.push("ought");
    v.push("our");
    v.push("ours");
    v.push("ourselves");
    v.push("out");
    assert(str_views(v@) =~= str_views(start) + long_stop_words_5());
}

/// Part 6 of `long_stop_words`.
pub open spec fn long_stop_words_6() -> Seq<Seq<char>> {
    seq![
        "over"@,
        "own"@,
        "same"@,
        "shall"@,
        "shant"@,
        "she"@,
        "should"@,
        "shouldnt"@,
        "since"@,
        "so"@,
        "some"@,
        "someone"@,
        "something"@,
        "somewhere"@,
        "such"@,
        "than"@,
        "that"@,
        "the"@,
        "their"@,
        "theirs"@,
    ]
}

fn push_long_stop_words_6(v: &mut Vec<&'static str>)
    ensures
        str_views(final(v)@) == str_views(old(v)@) + long_stop_words_6(),
{
    let ghost start = v@;
    v.push("over");
    v.push("own");
    v.push("same");
    v.push("shall");
    v.push("shant");
    v.push("she");
    v.push("should");
    v.push("shouldnt");
    v.push("since");
    v.push("so");
    v.push("some");
    v.push("someone");
    v.push("something");
    v.push("somewhere");
    v.push("such");
    v.push("than");
    v.push("that");
    v.push("the");
    v.push("their");
    v.push("theirs");
    assert(str_views(v@) =~= str_views(start) + long_stop_words_6());
}

/// Part 7 of `long_stop_words`.
pub open spec fn long_stop_words_7() -> Seq<Seq<char>> {
    seq![
        "them"@,
        "themselves"@,
        "then"@,
        "there"@,
        "these"@,
        "they"@,
        "this"@,
        "those"@,
        "through"@,
        "to"@,
        "too"@,
        "toward"@,
        "towards"@,
        "under"@,
        "until"@,
        "up"@,
        "upon"@,
        "us"@,
        "very"@,
        "via"@,
    ]
}

fn push_long_stop_words_7(v: &mut Vec<&'static str>)
    ensures
        str_views(final(v)@) == str_views(old(v)@) + long_stop_words_7(),
{
    let ghost start = v@;
    v.push("them");
    v.push("themselves");
    v.push("then");
    v.push("there");
    v.push("these");
    v.push("they");
    v.push("this");
    v.push("those");
    v.push("through");
    v.push("to");
    v.push("too");
    v.push("toward");
    v.push("towards");
    v.push("under");
    v.push("until");
    v.push("up");
    v.push("upon");
    v.push("us");
    v.push("very");
    v.push("via");
    assert(str_views(v@) =~= str_views(start) + long_stop_words_7());
}

/// Part 8 of `long_stop_words`.
pub open spec fn long_stop_words_8() -> Seq<Seq<char>> {
    seq![
        "was"@,
        "wasnt"@,
        "we"@,
        "well"@,
        "were"@,
        "werent"@,
        "what"@,
        "whatever"@,
        "when"@,
        "whence"@,
        "whenever"@,
        "where"@,
        "whereafter"@,
        "whereas"@,
        "whereby"@,
        "wherein"@,
        "whereupon"@,
        "wherever"@,
        "whether"@,
        "which"@,
    ]
}

fn push_long_stop_words_8(v: &mut Vec<&'static str>)
    ensures
        str_views(final(v)@) == str_views(old(v)@) + long_stop_words_8(),
{
    let ghost start = v@;
    v.push("was");
    v.push("wasnt");
    v.push("we");
    v.push("well");
    v.push("were");
    v.push("werent");
    v.push("what");
    v.push("whatever");
    v.push("when");
    v.push("whence");
    v.push("whenever");
    v.push("where");
    v.push("whereafter");
    v.push("whereas");
    v.push("whereby");
    v.push("wherein");
    v.push("whereupon");
    v.push("wherever");
    v.push("whether");
    v.push("which");
    assert(str_views(v@) =~= str_views(start) + long_stop_words_8());
}

/// Part 9 of `long_stop_words`.
pub open spec fn long_stop_words_9() -> Seq<Seq<char>> {
    seq![
        "while"@,
        "whither"@,
        "who"@,
        "whoever"@,
        "whole"@,
        "whom"@,
        "whose"@,
        "why"@,
        "will"@,
        "with"@,
        "within"@,
        "without"@,
        "wont"@,
        "would"@,
        "wouldnt"@,
        "yes"@,
        "yet"@,
        "you"@,
        "your"@,
        "yours"@,
    ]
}

fn push_long_stop_words_9(v: &mut Vec<&'static str>)
    ensures
        str_views(final(v)@) == str_views(old(v)@) + long_stop_words_9(),
{
    let ghost start = v@;
    v.push("while");
    v.push("whither");
    v.push("who");
    v.push("whoever");
    v.push("whole");
    v.push("whom");
    v.push("whose");
    v.push("why");
    v.push("will");
    v.push("with");
    v.push("within");
    v.push("without");
    v.push("wont");
    v.push("would");
    v.push("wouldnt");
    v.push("yes");
    v.push("yet");
    v.push("you");
    v.push("your");
    v.push("yours");
    assert(str_views(v@) =~= str_views(start) + long_stop_words_9());
}

/// Part 10 of `long_stop_words`.
pub open spec fn long_stop_words_10() -> Seq<Seq<char>> {
    seq![
        "yourself"@,
        "yourselves"@,
    ]
}

fn push_long_stop_words_10(v: &mut Vec<&'static str>)
    ensures
        str_views(final(v)@) == str_views(old(v)@) + long_stop_words_10(),
{
    let ghost start = v@;
    v.push("yourself");
    v.push("yourselves");
    assert(str_views(v@) =~= str_views(start) + long_stop_words_10());
}

/// English stop words ignored by the context compressor (sorted).
pub open spec fn long_stop_words() -> Seq<Seq<char>> {
    long_stop_words_0() + long_stop_words_1() + long_stop_words_2() + long_stop_words_3() + long_stop_words_4() + long_stop_words_5() + long_stop_words_6() + long_stop_words_7() + long_stop_words_8() + long_stop_words_9() + long_stop_words_10()
}

/// The words of `long_stop_words`, in order.
pub fn long_stop_word_list() -> (v: Vec<&'static str>)
    ensures
        str_views(v@) == long_stop_words(),
{
    let mut v: Vec<&'static str> = Vec::new();
    assert(str_views(v@) =~= Seq::<Seq<char>>::empty());
    push_long_stop_words_0(&mut v);
    push_long_stop_words_1(&mut v);
    push_long_stop_words_2(&mut v);
    push_long_stop_words_3(&mut v);
    push_long_stop_words_4(&mut v);
    push_long_stop_words_5(&mut v);
    push_long_stop_words_6(&mut v);
    push_long_stop_words_7(&mut v);
    push_long_stop_words_8(&mut v);
    push_long_stop_words_9(&mut v);
    push_long_stop_words_10(&mut v);
    assert(str_views(v@) =~= long_stop_words());
    v
}

/// Whether `w` is one of `words`.
pub fn listed(words: &Vec<&'static str>, w: &str) -> (b: bool)
    ensures
        b == str_views(words@).contains(w@),
{
    let mut i: usize = 0;
    while i < words.len()
        invariant
            i <= words.len(),
            forall|j: int| 0 <= j < i ==> #[trigger] words@[j]@ != w@,
        decreases words.len() - i,
    {
        if crate::text::str_eq(words[i], w) {
            assert(str_views(words@)[i as int] == w@);
            return true;
        }
        i += 1;
    }
    assert forall|j: int| 0 <= j < str_views(words@).len() implies #[trigger] str_views(words@)[j] != w@ by {
        assert(str_views(words@)[j] == words@[j]@);
    }
    false
}

} // verus!
