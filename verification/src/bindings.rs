//! The bindings that one annotated module describes: the functions it binds,
//! the JavaScript run before them, the name of the buffer type, and the
//! JavaScript module that reads a channel's messages and calls them.
use vstd::prelude::*;
use crate::bits::{function_discriminant_size_bits, low_mask_u32, reads_per_word, with_n_1_bits};
use crate::channel::ChannelLayout;
use crate::text::{decimal, push_decimal};

verus! {

/// One item of the annotated module, as far as the bindings read it.
pub enum ModuleItem {
    /// A constant; `text` is the value of its initializer when that is a
    /// string literal.
    Const { name: String, text: Option<String> },
    /// A function to bind, with the JavaScript that its call runs.
    Function { js: String },
    /// The functions of an `extern` block, each as written.
    ForeignFunctions { functions: Vec<String> },
    /// A struct: its name becomes the name of the buffer type.
    Struct { name: String },
    /// Any other item, which the bindings refuse.
    Other,
}

/// The JavaScript that the argument encoders and the metadata builder
/// contribute to the generated module.
pub struct RuntimeJs {
    /// Set-up code of each encoder, run once when the module loads.
    pub global_js: Vec<String>,
    /// Code of each encoder run before a message is read.
    pub pre_run_js: Vec<String>,
    /// Code of the metadata builder run before a message is read.
    pub metadata_pre_run_js: String,
    /// Expression that reads the pointer to the message.
    pub msg_ptr_read_js: String,
    /// Expression that reads whether the message has moved.
    pub msg_moved_read_js: String,
}

/// The bindings of one module.
pub struct Bindings {
    pub buffer: String,
    pub function_js: Vec<String>,
    pub foreign_items: Vec<String>,
    pub initialize: String,
    pub runtime: RuntimeJs,
}

pub open spec fn views(strings: Seq<String>) -> Seq<Seq<char>> {
    strings.map_values(|s: String| s@)
}

/// The strings of `parts` one after the other.
pub open spec fn concat_all(parts: Seq<Seq<char>>) -> Seq<char>
    decreases parts.len(),
{
    if parts.len() == 0 {
        Seq::empty()
    } else {
        concat_all(parts.drop_last()) + parts.last()
    }
}

/// The text of the last constant named `JS` among `items`, empty when there is none.
pub open spec fn js_constant(items: Seq<ModuleItem>) -> Seq<char>
    decreases items.len(),
{
    if items.len() == 0 {
        Seq::empty()
    } else {
        match items.last() {
            ModuleItem::Const { name, text } => if name@ == "JS"@ {
                match text {
                    Some(t) => t@,
                    None => Seq::empty(),
                }
            } else {
                js_constant(items.drop_last())
            },
            _ => js_constant(items.drop_last()),
        }
    }
}

/// The name of the last struct among `items`.
pub open spec fn struct_name(items: Seq<ModuleItem>) -> Option<Seq<char>>
    decreases items.len(),
{
    if items.len() == 0 {
        None
    } else {
        match items.last() {
            ModuleItem::Struct { name } => Some(name@),
            _ => struct_name(items.drop_last()),
        }
    }
}

/// The JavaScript of the functions among `items`, in order.
pub open spec fn function_bodies(items: Seq<ModuleItem>) -> Seq<Seq<char>>
    decreases items.len(),
{
    if items.len() == 0 {
        Seq::empty()
    } else {
        match items.last() {
            ModuleItem::Function { js } => function_bodies(items.drop_last()).push(js@),
            _ => function_bodies(items.drop_last()),
        }
    }
}

/// The functions of the `extern` blocks among `items`, in order.
pub open spec fn foreign_functions(items: Seq<ModuleItem>) -> Seq<Seq<char>>
    decreases items.len(),
{
    if items.len() == 0 {
        Seq::empty()
    } else {
        match items.last() {
            ModuleItem::ForeignFunctions { functions } => foreign_functions(items.drop_last())
                + views(functions@),
            _ => foreign_functions(items.drop_last()),
        }
    }
}

/// Items the bindings accept: no item of another kind, and a constant named
/// `JS` holds a string literal.
pub open spec fn items_accepted(items: Seq<ModuleItem>) -> bool {
    forall|i: int|
        0 <= i < items.len() ==> match #[trigger] items[i] {
            ModuleItem::Other => false,
            ModuleItem::Const { name, text } => name@ == "JS"@ ==> text is Some,
            _ => true,
        }
}

/// Why the bindings refuse an item.
pub enum ItemRefusal {
    /// A constant named `JS` whose initializer is not a string literal.
    MissingBody,
    /// An item that is none of a constant, function, `extern` block or struct.
    UnsupportedItem,
}

/// Why the bindings refuse `item`, if they do.
pub open spec fn refusal_of(item: ModuleItem) -> Option<ItemRefusal> {
    match item {
        ModuleItem::Other => Some(ItemRefusal::UnsupportedItem),
        ModuleItem::Const { name, text } => if name@ == "JS"@ && text is None {
            Some(ItemRefusal::MissingBody)
        } else {
            None
        },
        _ => None,
    }
}

/// The refusal of the first refused item, reading `items` in order.
pub open spec fn first_refusal(items: Seq<ModuleItem>) -> Option<ItemRefusal>
    decreases items.len(),
{
    if items.len() == 0 {
        None
    } else {
        match refusal_of(items[0]) {
            Some(r) => Some(r),
            None => first_refusal(items.drop_first()),
        }
    }
}

/// Checks the items of the annotated module before they are parsed: the
/// refusal of the first refused item, in the order the items are read, or
/// `None` when `parse` accepts them all.
pub fn check_items(items: &Vec<ModuleItem>) -> (refusal: Option<ItemRefusal>)
    ensures
        refusal == first_refusal(items@),
        refusal is None <==> items_accepted(items@),
{
    let mut js_name = String::new();
    js_name.append("JS");
    let n = items.len();
    let mut i: usize = 0;
    assert(items@.skip(0) =~= items@);
    while i < n
        invariant
            n == items@.len(),
            i <= n,
            js_name@ == "JS"@,
            first_refusal(items@) == first_refusal(items@.skip(i as int)),
            forall|j: int| 0 <= j < i ==> refusal_of(#[trigger] items@[j]) is None,
        decreases n - i,
    {
        let ghost rest = items@.skip(i as int);
        assert(rest[0] == items@[i as int]);
        assert(rest.drop_first() =~= items@.skip(i + 1));
        let refusal = match &items[i] {
            ModuleItem::Other => Some(ItemRefusal::UnsupportedItem),
            ModuleItem::Const { name, text } => {
                if *name == js_name && text.is_none() {
                    Some(ItemRefusal::MissingBody)
                } else {
                    None
                }
            },
            _ => None,
        };
        match refusal {
            Some(r) => {
                assert(!items_accepted(items@)) by {
                    let t = items@[i as int];
                    assert(match t {
                        ModuleItem::Other => false,
                        ModuleItem::Const { name, text } => name@ == "JS"@ ==> text is Some,
                        _ => true,
                    } == false);
                }
                return Some(r);
            },
            None => {},
        }
        i = i + 1;
    }
    assert(items@.skip(n as int) =~= Seq::<ModuleItem>::empty());
    assert(items_accepted(items@)) by {
        assert forall|j: int| 0 <= j < items@.len() implies match #[trigger] items@[j] {
            ModuleItem::Other => false,
            ModuleItem::Const { name, text } => name@ == "JS"@ ==> text is Some,
            _ => true,
        } by {
            assert(refusal_of(items@[j]) is None);
        }
    }
    None
}

/// The `case` arms of the dispatch switch, one per function: arm `i` runs the
/// JavaScript of function `i`.
pub open spec fn function_cases(function_js: Seq<Seq<char>>) -> Seq<char>
    decreases function_js.len(),
{
    if function_js.len() == 0 {
        Seq::empty()
    } else {
        function_cases(function_js.drop_last()) + "case "@ + decimal(
            (function_js.len() - 1) as nat,
        ) + ":"@ + function_js.last() + "break;"@
    }
}

/// The whole dispatch switch: the arms of the functions, then the arm of the
/// code that ends a message.
pub open spec fn match_op(function_js: Seq<Seq<char>>) -> Seq<char> {
    function_cases(function_js) + "case "@ + decimal(function_js.len()) + ":return true;"@
}

pub const JS_HEAD: &'static str = "let m,p,ls,lss,d,t,op,i,e,z,metaflags;\n            ";

pub const JS_RUN_OPEN: &'static str = "\n            export function create(r){\n                d=r;\n            }\n            export function update_memory(b){\n                m=new DataView(b.buffer)\n            }\n            export function run(){\n                ";

pub const JS_IF_MOVED: &'static str = "\n                if(";

pub const JS_READ_PTR: &'static str = "){\n                    ls=";

pub const JS_START: &'static str = ";\n                }\n                p=ls;\n                ";

pub const JS_LOOP: &'static str = "\n                for(;;){\n                    op=m.getUint32(p,true);\n                    p+=4;\n                    z=0;\n                    while(z++<";

pub const JS_SWITCH: &'static str = "){\n                        switch(op&";

pub const JS_CASES: &'static str = "){\n                            ";

pub const JS_SHIFT: &'static str = "\n                        }\n                        op>>>=";

pub const JS_TAIL: &'static str = ";\n                    }\n                }\n            }";

/// The generated JavaScript module: the set-up code, `create`,
/// `update_memory`, and `run`, which reads the message word by word and
/// dispatches on each code, a byte at a time, four to a word.
pub open spec fn js_module(
    initialize: Seq<char>,
    pre_run_metadata: Seq<char>,
    msg_ptr_moved: Seq<char>,
    read_msg_ptr: Seq<char>,
    pre_run_js: Seq<char>,
    function_js: Seq<Seq<char>>,
) -> Seq<char> {
    let op_size: nat = 8;
    JS_HEAD@ + initialize + JS_RUN_OPEN@ + pre_run_metadata + JS_IF_MOVED@ + msg_ptr_moved
        + JS_READ_PTR@ + read_msg_ptr + JS_START@ + pre_run_js + JS_LOOP@ + decimal(
        reads_per_word(op_size),
    ) + JS_SWITCH@ + decimal(low_mask_u32(op_size) as nat) + JS_CASES@ + match_op(function_js)
        + JS_SHIFT@ + decimal(op_size) + JS_TAIL@
}

impl Bindings {
    /// The generated JavaScript module of these bindings.
    pub open spec fn spec_js(self) -> Seq<char> {
        js_module(
            self.initialize@,
            self.runtime.metadata_pre_run_js@,
            self.runtime.msg_moved_read_js@,
            self.runtime.msg_ptr_read_js@,
            concat_all(views(self.runtime.pre_run_js@)),
            views(self.function_js@),
        )
    }


    /// Reads the items of the annotated module: the last constant named `JS`
    /// gives the set-up code, followed by each encoder's set-up code; each
    /// function is bound in order; the functions of `extern` blocks are kept;
    /// the last struct names the buffer type, `Channel` when there is none.
    /// Items of any other kind, and a `JS` constant that is not a string
    /// literal, are refused.
    pub fn parse(items: Vec<ModuleItem>, runtime: RuntimeJs) -> (b: Bindings)
        requires
            items_accepted(items@),
        ensures
            b.initialize@ == js_constant(items@) + concat_all(views(runtime.global_js@)),
            b.buffer@ == (match struct_name(items@) {
                Some(name) => name,
                None => "Channel"@,
            }),
            views(b.function_js@) == function_bodies(items@),
            views(b.foreign_items@) == foreign_functions(items@),
            b.runtime == runtime,
    {
        let mut buffer: Option<String> = None;
        let mut functions: Vec<String> = Vec::new();
        let mut foreign_items: Vec<String> = Vec::new();
        let mut intialize = String::new();
        let mut js_name = String::new();
        js_name.append("JS");
        let n = items.len();
        let mut i: usize = 0;
        while i < n
            invariant
                n == items@.len(),
                i <= n,
                items_accepted(items@),
                js_name@ == "JS"@,
                intialize@ == js_constant(items@.take(i as int)),
                buffer.is_some() == struct_name(items@.take(i as int)).is_some(),
                buffer matches Some(name) ==> struct_name(items@.take(i as int)) == Some(name@),
                views(functions@) == function_bodies(items@.take(i as int)),
                views(foreign_items@) == foreign_functions(items@.take(i as int)),
            decreases n - i,
        {
            let ghost prefix = items@.take(i as int);
            assert(items@.take(i + 1).drop_last() =~= prefix);
            assert(items@.take(i + 1).last() == items@[i as int]);
            match &items[i] {
                ModuleItem::Const { name, text } => {
                    if *name == js_name {
                        assert(text is Some);
                        match text {
                            Some(t) => {
                                intialize = t.clone();
                            },
                            None => {},
                        }
                    }
                },
                ModuleItem::Function { js } => {
                    functions.push(js.clone());
                    assert(views(functions@) =~= views(functions@.drop_last()).push(js@));
                },
                ModuleItem::ForeignFunctions { functions: fns } => {
                    let ghost before = foreign_items@;
                    let mut k: usize = 0;
                    while k < fns.len()
                        invariant
                            k <= fns@.len(),
                            foreign_items@ == before + fns@.take(k as int),
                        decreases fns@.len() - k,
                    {
                        foreign_items.push(fns[k].clone());
                        assert(fns@.take(k + 1) =~= fns@.take(k as int).push(fns@[k as int]));
                        k = k + 1;
                    }
                    assert(fns@.take(k as int) =~= fns@);
                    assert(views(foreign_items@) =~= views(before) + views(fns@));
                },
                ModuleItem::Struct { name } => {
                    buffer = Some(name.clone());
                },
                ModuleItem::Other => {
                    assert(false);
                },
            }
            i = i + 1;
        }
        assert(items@.take(n as int) =~= items@);
        let ghost head = intialize@;
        let ghost globals = views(runtime.global_js@);
        let mut g: usize = 0;
        while g < runtime.global_js.len()
            invariant
                globals == views(runtime.global_js@),
                g <= runtime.global_js@.len(),
                intialize@ == head + concat_all(globals.take(g as int)),
            decreases runtime.global_js@.len() - g,
        {
            intialize.append(runtime.global_js[g].as_str());
            assert(globals.take(g + 1).drop_last() =~= globals.take(g as int));
            g = g + 1;
        }
        assert(globals.take(g as int) =~= globals);
        let buffer = match buffer {
            Some(name) => name,
            None => {
                let mut name = String::new();
                name.append("Channel");
                name
            },
        };
        Bindings { buffer, function_js: functions, foreign_items, initialize: intialize, runtime }
    }

    /// The layout of the channel of these bindings: one byte per code, four
    /// codes per word; codes `0..n` call the `n` functions, `n` ends a message
    /// and `n + 1` does nothing. The code `n + 1` must fit in a byte, which
    /// `requires` asks of `n`.
    pub fn channel(&self) -> (layout: ChannelLayout)
        requires
            self.function_js@.len() <= 254,
        ensures
            layout.wf(),
            layout.end_msg == self.function_js@.len(),
            layout.no_op == self.function_js@.len() + 1,
    {
        let n = self.function_js.len();
        let end_msg = n as u8;
        let no_op = n as u8 + 1;
        let size = function_discriminant_size_bits(n as u32);
        let reads_per_u32 = (32 + (size - 1)) / size;
        ChannelLayout { op_size: size, reads_per_u32, end_msg, no_op }
    }

    /// Writes the JavaScript module that reads this channel's messages. More
    /// functions than 255 cannot be given codes, which `requires` leaves out.
    pub fn js(&self) -> (js: String)
        requires
            self.function_js@.len() <= 255,
        ensures
            js@ == self.spec_js(),
    {
        let n = self.function_js.len();
        let op_size = function_discriminant_size_bits(n as u32);
        let reads_per_u32 = (32 + (op_size - 1)) / op_size;
        let op_mask = with_n_1_bits(op_size);
        let ghost fjs = views(self.function_js@);
        let mut match_op = String::new();
        let mut i: usize = 0;
        while i < n
            invariant
                n == self.function_js@.len(),
                fjs == views(self.function_js@),
                i <= n,
                match_op@ == function_cases(fjs.take(i as int)),
            decreases n - i,
        {
            match_op.append("case ");
            push_decimal(&mut match_op, i as u64);
            match_op.append(":");
            match_op.append(self.function_js[i].as_str());
            match_op.append("break;");
            assert(fjs.take(i + 1).drop_last() =~= fjs.take(i as int));
            i = i + 1;
        }
        assert(fjs.take(n as int) =~= fjs);
        match_op.append("case ");
        push_decimal(&mut match_op, n as u64);
        match_op.append(":return true;");
        let ghost pre = views(self.runtime.pre_run_js@);
        let mut pre_run_js = String::new();
        let mut j: usize = 0;
        while j < self.runtime.pre_run_js.len()
            invariant
                pre == views(self.runtime.pre_run_js@),
                j <= self.runtime.pre_run_js@.len(),
                pre_run_js@ == concat_all(pre.take(j as int)),
            decreases self.runtime.pre_run_js@.len() - j,
        {
            pre_run_js.append(self.runtime.pre_run_js[j].as_str());
            assert(pre.take(j + 1).drop_last() =~= pre.take(j as int));
            j = j + 1;
        }
        assert(pre.take(j as int) =~= pre);
        let mut js = String::new();
        js.append(JS_HEAD);
        js.append(self.initialize.as_str());
        js.append(JS_RUN_OPEN);
        js.append(self.runtime.metadata_pre_run_js.as_str());
        js.append(JS_IF_MOVED);
        js.append(self.runtime.msg_moved_read_js.as_str());
        js.append(JS_READ_PTR);
        js.append(self.runtime.msg_ptr_read_js.as_str());
        js.append(JS_START);
        js.append(pre_run_js.as_str());
        js.append(JS_LOOP);
        push_decimal(&mut js, reads_per_u32 as u64);
        js.append(JS_SWITCH);
        push_decimal(&mut js, op_mask as u64);
        js.append(JS_CASES);
        js.append(match_op.as_str());
        js.append(JS_SHIFT);
        push_decimal(&mut js, op_size as u64);
        js.append(JS_TAIL);
        js
    }
}

/// The strings of two lists written one after the other are the strings of
/// each list, the first list's first.
pub proof fn lemma_concat_all_append(a: Seq<Seq<char>>, b: Seq<Seq<char>>)
    ensures
        concat_all(a + b) == concat_all(a) + concat_all(b),
    decreases b.len(),
{
    if b.len() == 0 {
        assert(a + b =~= a);
        assert(concat_all(b) =~= Seq::<char>::empty());
        assert(concat_all(a) + concat_all(b) =~= concat_all(a));
    } else {
        assert((a + b).drop_last() =~= a + b.drop_last());
        lemma_concat_all_append(a, b.drop_last());
        assert(concat_all(a) + concat_all(b) =~= concat_all(a) + concat_all(b.drop_last())
            + b.last());
    }
}

/// Every string of `parts` stands, whole and in order, in `concat_all(parts)`:
/// string `i` right after the strings before it, and nothing follows the last.
pub proof fn lemma_concat_all_holds_every_part(parts: Seq<Seq<char>>, i: int)
    requires
        0 <= i < parts.len(),
    ensures
        concat_all(parts).subrange(
            concat_all(parts.take(i)).len() as int,
            concat_all(parts.take(i)).len() + parts[i].len() as int,
        ) == parts[i],
        concat_all(parts.take(i + 1)).len() == concat_all(parts.take(i)).len() + parts[i].len(),
        concat_all(parts.take(parts.len() as int)).len() == concat_all(parts).len(),
        concat_all(parts.take(i)).len() + parts[i].len() <= concat_all(parts).len(),
{
    assert(parts =~= parts.take(i) + (seq![parts[i]] + parts.skip(i + 1)));
    lemma_concat_all_append(parts.take(i), seq![parts[i]] + parts.skip(i + 1));
    lemma_concat_all_append(seq![parts[i]], parts.skip(i + 1));
    let e = seq![parts[i]].drop_last();
    assert(e =~= Seq::<Seq<char>>::empty());
    assert(concat_all(e) == Seq::<char>::empty());
    assert(concat_all(seq![parts[i]]) == concat_all(e) + parts[i]);
    assert(concat_all(seq![parts[i]]) =~= parts[i]);
    assert(parts.take(i + 1) =~= parts.take(i) + seq![parts[i]]);
    lemma_concat_all_append(parts.take(i), seq![parts[i]]);
    assert(parts.take(parts.len() as int) =~= parts);
    let x = concat_all(parts.take(i));
    let y = concat_all(parts.skip(i + 1));
    assert(concat_all(parts) =~= x + parts[i] + y);
    assert((x + parts[i] + y).subrange(x.len() as int, x.len() + parts[i].len() as int) =~= parts[i]);
}

/// The generated module runs every encoder's pre-run code, in order, right
/// after `p=ls;` and before the read loop: entry `i` stands after the entries
/// before it, and the loop follows the last one.
pub proof fn lemma_module_runs_every_pre_run(b: Bindings, i: int)
    requires
        0 <= i < b.runtime.pre_run_js@.len(),
    ensures
        ({
            let head = JS_HEAD@ + b.initialize@ + JS_RUN_OPEN@ + b.runtime.metadata_pre_run_js@
                + JS_IF_MOVED@ + b.runtime.msg_moved_read_js@ + JS_READ_PTR@
                + b.runtime.msg_ptr_read_js@ + JS_START@;
            let pre = views(b.runtime.pre_run_js@);
            let at: int = (head.len() + concat_all(pre.take(i)).len()) as int;
            let end: int = (head.len() + concat_all(pre).len()) as int;
            &&& b.spec_js().subrange(0, head.len() as int) == head
            &&& b.spec_js().subrange(at, at + b.runtime.pre_run_js@[i]@.len())
                == b.runtime.pre_run_js@[i]@
            &&& b.spec_js().subrange(end, end + JS_LOOP@.len()) == JS_LOOP@
        }),
{
    let head = JS_HEAD@ + b.initialize@ + JS_RUN_OPEN@ + b.runtime.metadata_pre_run_js@
        + JS_IF_MOVED@ + b.runtime.msg_moved_read_js@ + JS_READ_PTR@
        + b.runtime.msg_ptr_read_js@ + JS_START@;
    let pre = views(b.runtime.pre_run_js@);
    let p = concat_all(pre);
    let js = b.spec_js();
    let tail = js.skip((head.len() + p.len() + JS_LOOP@.len()) as int);
    assert(js =~= head + p + JS_LOOP@ + tail);
    lemma_concat_all_holds_every_part(pre, i);
    assert(pre[i] == b.runtime.pre_run_js@[i]@);
    let at: int = (head.len() + concat_all(pre.take(i)).len()) as int;
    assert(js.subrange(0, head.len() as int) =~= head);
    let off: int = concat_all(pre.take(i)).len() as int;
    assert forall|k: int| 0 <= k < pre[i].len() implies #[trigger] js.subrange(
        at,
        at + pre[i].len(),
    )[k] == pre[i][k] by {
        assert(js[at + k] == p[off + k]);
        assert(p.subrange(off, off + pre[i].len())[k] == p[off + k]);
    }
    assert(js.subrange(at, at + pre[i].len()) =~= pre[i]);
    let end: int = (head.len() + p.len()) as int;
    assert(js.subrange(end, end + JS_LOOP@.len()) =~= JS_LOOP@);
}

/// The functions of `extern` blocks in two runs of items are those of the
/// first run, then those of the second.
pub proof fn lemma_foreign_functions_append(a: Seq<ModuleItem>, b: Seq<ModuleItem>)
    ensures
        foreign_functions(a + b) == foreign_functions(a) + foreign_functions(b),
    decreases b.len(),
{
    if b.len() == 0 {
        assert(a + b =~= a);
        assert(foreign_functions(a) + foreign_functions(b) =~= foreign_functions(a));
    } else {
        assert((a + b).drop_last() =~= a + b.drop_last());
        assert((a + b).last() == b.last());
        lemma_foreign_functions_append(a, b.drop_last());
        match b.last() {
            ModuleItem::ForeignFunctions { functions } => {
                assert(foreign_functions(a) + foreign_functions(b) =~= foreign_functions(a)
                    + foreign_functions(b.drop_last()) + views(functions@));
            },
            _ => {},
        }
    }
}

/// An `extern` block keeps every one of its functions, in order; any other
/// item keeps none.
pub proof fn lemma_foreign_block_keeps_every_function(item: ModuleItem)
    ensures
        item matches ModuleItem::ForeignFunctions { functions } ==> {
            &&& foreign_functions(seq![item]).len() == functions@.len()
            &&& forall|k: int|
                0 <= k < functions@.len() ==> foreign_functions(seq![item])[k]
                    == functions@[k]@
        },
        !(item is ForeignFunctions) ==> foreign_functions(seq![item]).len() == 0,
{
    let e = seq![item].drop_last();
    assert(e =~= Seq::<ModuleItem>::empty());
    assert(foreign_functions(e) == Seq::<Seq<char>>::empty());
    assert(seq![item].last() == item);
    match item {
        ModuleItem::ForeignFunctions { functions } => {
            assert(foreign_functions(seq![item]) =~= views(functions@));
        },
        _ => {
            assert(foreign_functions(seq![item]) == foreign_functions(e));
        },
    }
}

/// The set-up code is the text of the last constant named `JS`: later items
/// of any other kind, and later constants of other names, leave it alone.
pub proof fn lemma_last_js_constant_sets_up(items: Seq<ModuleItem>, i: int, t: String)
    requires
        0 <= i < items.len(),
        items[i] matches ModuleItem::Const { name, text } && name@ == "JS"@ && text == Some(t),
        forall|j: int|
            i < j < items.len() ==> !(#[trigger] items[j] matches ModuleItem::Const { name, .. }
                && name@ == "JS"@),
    ensures
        js_constant(items) == t@,
    decreases items.len(),
{
    if i < items.len() - 1 {
        let rest = items.drop_last();
        assert forall|j: int| i < j < rest.len() implies !(#[trigger] rest[j] matches ModuleItem::Const {
            name,
            ..
        } && name@ == "JS"@) by {
            assert(rest[j] == items[j]);
        }
        lemma_last_js_constant_sets_up(rest, i, t);
        assert(!(items[items.len() - 1] matches ModuleItem::Const { name, .. } && name@
            == "JS"@));
    }
}

/// Without a constant named `JS` the set-up code of the module is empty,
/// whatever other constants it holds.
pub proof fn lemma_no_js_constant(items: Seq<ModuleItem>)
    requires
        forall|j: int|
            0 <= j < items.len() ==> !(#[trigger] items[j] matches ModuleItem::Const { name, .. }
                && name@ == "JS"@),
    ensures
        js_constant(items) == Seq::<char>::empty(),
    decreases items.len(),
{
    if items.len() > 0 {
        let rest = items.drop_last();
        assert forall|j: int| 0 <= j < rest.len() implies !(#[trigger] rest[j] matches ModuleItem::Const {
            name,
            ..
        } && name@ == "JS"@) by {
            assert(rest[j] == items[j]);
        }
        lemma_no_js_constant(rest);
        assert(!(items[items.len() - 1] matches ModuleItem::Const { name, .. } && name@
            == "JS"@));
    }
}

/// A constant whose name is not `JS` does not change the set-up code.
pub proof fn lemma_other_constant_is_ignored(items: Seq<ModuleItem>, item: ModuleItem)
    requires
        item matches ModuleItem::Const { name, .. } && name@ != "JS"@,
    ensures
        js_constant(items.push(item)) == js_constant(items),
{
    assert(items.push(item).drop_last() =~= items);
}

/// The functions of two runs of items are those of the first run, then those
/// of the second.
pub proof fn lemma_function_bodies_append(a: Seq<ModuleItem>, b: Seq<ModuleItem>)
    ensures
        function_bodies(a + b) == function_bodies(a) + function_bodies(b),
    decreases b.len(),
{
    if b.len() == 0 {
        assert(a + b =~= a);
        assert(function_bodies(a) + function_bodies(b) =~= function_bodies(a));
    } else {
        assert((a + b).drop_last() =~= a + b.drop_last());
        assert((a + b).last() == b.last());
        lemma_function_bodies_append(a, b.drop_last());
        match b.last() {
            ModuleItem::Function { js } => {
                assert(function_bodies(a) + function_bodies(b) =~= (function_bodies(a)
                    + function_bodies(b.drop_last())).push(js@));
            },
            _ => {},
        }
    }
}

/// A function item is bound with its JavaScript; any other item binds nothing.
pub proof fn lemma_function_item_is_bound(item: ModuleItem)
    ensures
        item matches ModuleItem::Function { js } ==> function_bodies(seq![item]) == seq![js@],
        !(item is Function) ==> function_bodies(seq![item]).len() == 0,
{
    let e = seq![item].drop_last();
    assert(e =~= Seq::<ModuleItem>::empty());
    assert(function_bodies(e) == Seq::<Seq<char>>::empty());
    assert(seq![item].last() == item);
    match item {
        ModuleItem::Function { js } => {
            assert(function_bodies(seq![item]) =~= seq![js@]);
        },
        _ => {},
    }
}

/// The buffer is named by the last struct of the module.
pub proof fn lemma_last_struct_names_buffer(items: Seq<ModuleItem>, i: int, name: String)
    requires
        0 <= i < items.len(),
        items[i] == (ModuleItem::Struct { name }),
        forall|j: int| i < j < items.len() ==> !(#[trigger] items[j] is Struct),
    ensures
        struct_name(items) == Some(name@),
    decreases items.len(),
{
    if i < items.len() - 1 {
        let rest = items.drop_last();
        assert forall|j: int| i < j < rest.len() implies !(#[trigger] rest[j] is Struct) by {
            assert(rest[j] == items[j]);
        }
        lemma_last_struct_names_buffer(rest, i, name);
        assert(!(items[items.len() - 1] is Struct));
    }
}

/// Without a struct there is no name for the buffer (`parse` then names it `Channel`).
pub proof fn lemma_no_struct(items: Seq<ModuleItem>)
    requires
        forall|j: int| 0 <= j < items.len() ==> !(#[trigger] items[j] is Struct),
    ensures
        struct_name(items) is None,
    decreases items.len(),
{
    if items.len() > 0 {
        let rest = items.drop_last();
        assert forall|j: int| 0 <= j < rest.len() implies !(#[trigger] rest[j] is Struct) by {
            assert(rest[j] == items[j]);
        }
        lemma_no_struct(rest);
        assert(!(items[items.len() - 1] is Struct));
    }
}

/// The dispatch switch has one arm per function, in order: after the arms of
/// functions `0..i` comes `case i:`, the JavaScript of function `i`, and
/// `break;`. The arm of the end code, `case n:return true;`, closes it.
pub proof fn lemma_dispatch_arms(function_js: Seq<Seq<char>>, i: int)
    requires
        0 <= i < function_js.len(),
    ensures
        function_cases(function_js.take(0)) == Seq::<char>::empty(),
        function_cases(function_js.take(i + 1)) == function_cases(function_js.take(i)) + "case "@
            + decimal(i as nat) + ":"@ + function_js[i] + "break;"@,
        function_cases(function_js.take(function_js.len() as int)) == function_cases(function_js),
        match_op(function_js) == function_cases(function_js) + "case "@ + decimal(
            function_js.len(),
        ) + ":return true;"@,
{
    assert(function_js.take(0) =~= Seq::<Seq<char>>::empty());
    let t = function_js.take(i + 1);
    assert(t.drop_last() =~= function_js.take(i));
    assert(t.last() == function_js[i]);
    assert(t.len() - 1 == i);
    assert(function_js.take(function_js.len() as int) =~= function_js);
}

} // verus!
