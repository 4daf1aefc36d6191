use sledgehammer_bindgen::bindings::{check_items, Bindings, ItemRefusal, ModuleItem, RuntimeJs};

fn runtime() -> RuntimeJs {
    RuntimeJs {
        global_js: vec!["const g1=1;".to_string(), "const g2=2;".to_string()],
        pre_run_js: vec!["a=1;".to_string(), "b=2;".to_string()],
        metadata_pre_run_js: "meta();".to_string(),
        msg_ptr_read_js: "m.getUint32(d,true)".to_string(),
        msg_moved_read_js: "m.getUint8(d+4)".to_string(),
    }
}

/// The module text as the `format!` template of the generator writes it.
fn expected_js(
    initialize: &str,
    pre_run_metadata: &str,
    msg_ptr_moved: &str,
    read_msg_ptr: &str,
    pre_run_js: &str,
    functions: &[&str],
) -> String {
    let op_size: usize = 8;
    let reads_per_u32 = (32 + (op_size - 1)) / op_size;
    let op_mask = ((1u64 << op_size) - 1) as u32;
    let match_op = functions
        .iter()
        .enumerate()
        .fold(String::new(), |s, (i, f)| s + &format!("case {}:{}break;", i, f))
        + &format!("case {}:return true;", functions.len());
    format!(
        r#"let m,p,ls,lss,d,t,op,i,e,z,metaflags;
            {initialize}
            export function create(r){{
                d=r;
            }}
            export function update_memory(b){{
                m=new DataView(b.buffer)
            }}
            export function run(){{
                {pre_run_metadata}
                if({msg_ptr_moved}){{
                    ls={read_msg_ptr};
                }}
                p=ls;
                {pre_run_js}
                for(;;){{
                    op=m.getUint32(p,true);
                    p+=4;
                    z=0;
                    while(z++<{reads_per_u32}){{
                        switch(op&{op_mask}){{
                            {match_op}
                        }}
                        op>>>={op_size};
                    }}
                }}
            }}"#,
    )
}

fn items() -> Vec<ModuleItem> {
    vec![
        ModuleItem::Struct { name: "Buffer".to_string() },
        ModuleItem::Const { name: "JS".to_string(), text: Some("const text=[];".to_string()) },
        ModuleItem::ForeignFunctions { functions: vec!["fn get(id: u32) -> String;".to_string()] },
        ModuleItem::Function { js: "console.log(1);".to_string() },
        ModuleItem::Const { name: "OTHER".to_string(), text: None },
        ModuleItem::Function { js: "console.log(2);".to_string() },
    ]
}

#[test]
fn parse_reads_the_module_items() {
    let b = Bindings::parse(items(), runtime());
    assert_eq!(b.buffer, "Buffer");
    assert_eq!(b.initialize, "const text=[];const g1=1;const g2=2;");
    assert_eq!(b.function_js, vec!["console.log(1);".to_string(), "console.log(2);".to_string()]);
    assert_eq!(b.foreign_items, vec!["fn get(id: u32) -> String;".to_string()]);
    assert_eq!(b.runtime.pre_run_js, vec!["a=1;".to_string(), "b=2;".to_string()]);
}

#[test]
fn parse_names_the_buffer_channel_by_default() {
    let b = Bindings::parse(vec![ModuleItem::Function { js: "f();".to_string() }], runtime());
    assert_eq!(b.buffer, "Channel");
    assert_eq!(b.initialize, "const g1=1;const g2=2;");
}

#[test]
fn parse_keeps_the_last_js_constant_and_struct() {
    let b = Bindings::parse(
        vec![
            ModuleItem::Const { name: "JS".to_string(), text: Some("first".to_string()) },
            ModuleItem::Struct { name: "A".to_string() },
            ModuleItem::Const { name: "JS".to_string(), text: Some("second".to_string()) },
            ModuleItem::Struct { name: "B".to_string() },
        ],
        RuntimeJs {
            global_js: Vec::new(),
            pre_run_js: Vec::new(),
            metadata_pre_run_js: String::new(),
            msg_ptr_read_js: String::new(),
            msg_moved_read_js: String::new(),
        },
    );
    assert_eq!(b.initialize, "second");
    assert_eq!(b.buffer, "B");
    assert!(b.function_js.is_empty());
}

#[test]
fn js_module_matches_the_template() {
    let b = Bindings::parse(items(), runtime());
    let expected = expected_js(
        "const text=[];const g1=1;const g2=2;",
        "meta();",
        "m.getUint8(d+4)",
        "m.getUint32(d,true)",
        "a=1;b=2;",
        &["console.log(1);", "console.log(2);"],
    );
    assert_eq!(b.js(), expected);
    assert!(b.js().contains("case 0:console.log(1);break;case 1:console.log(2);break;case 2:return true;"));
    assert!(b.js().contains("while(z++<4){"));
    assert!(b.js().contains("switch(op&255){"));
    assert!(b.js().contains("op>>>=8;"));
}

#[test]
fn js_module_of_many_functions_reads_bytes() {
    let bodies: Vec<String> = (0..20).map(|i| format!("f{}();", i)).collect();
    let b = Bindings {
        buffer: "Channel".to_string(),
        function_js: bodies.clone(),
        foreign_items: Vec::new(),
        initialize: String::new(),
        runtime: runtime(),
    };
    let refs: Vec<&str> = bodies.iter().map(|s| s.as_str()).collect();
    let expected = expected_js(
        "",
        "meta();",
        "m.getUint8(d+4)",
        "m.getUint32(d,true)",
        "a=1;b=2;",
        &refs,
    );
    let js = b.js();
    assert_eq!(js, expected);
    assert!(js.contains("while(z++<4){"));
    assert!(js.contains("switch(op&255){"));
    assert!(js.contains("op>>>=8;"));
    assert!(js.contains("case 19:f19();break;case 20:return true;"));
}

#[test]
fn js_module_without_functions_only_ends() {
    let b = Bindings::parse(Vec::new(), runtime());
    assert!(b.js().contains("switch(op&255){\n                            case 0:return true;\n"));
}

#[test]
fn channel_layout_agrees_with_the_reader() {
    let b = Bindings::parse(items(), runtime());
    let layout = b.channel();
    let js = b.js();
    assert!(js.contains(&format!("while(z++<{}){{", layout.reads_per_u32)));
    assert!(js.contains(&format!("op>>>={};", layout.op_size)));
    assert!(js.contains(&format!("case {}:return true;", layout.end_msg)));
}

#[test]
fn js_module_of_255_functions() {
    let bodies: Vec<String> = (0..255).map(|i| format!("f{}();", i)).collect();
    let b = Bindings {
        buffer: "Channel".to_string(),
        function_js: bodies.clone(),
        foreign_items: Vec::new(),
        initialize: String::new(),
        runtime: runtime(),
    };
    let refs: Vec<&str> = bodies.iter().map(|s| s.as_str()).collect();
    let expected = expected_js("", "meta();", "m.getUint8(d+4)", "m.getUint32(d,true)", "a=1;b=2;", &refs);
    let js = b.js();
    assert_eq!(js, expected);
    assert!(js.contains("case 254:f254();break;case 255:return true;"));
}

#[test]
fn accepted_items_pass_the_check() {
    assert!(check_items(&items()).is_none());
    assert!(check_items(&Vec::new()).is_none());
}

#[test]
fn js_constant_without_a_string_is_refused() {
    let items = vec![
        ModuleItem::Function { js: "f();".to_string() },
        ModuleItem::Const { name: "JS".to_string(), text: None },
        ModuleItem::Other,
    ];
    assert!(matches!(check_items(&items), Some(ItemRefusal::MissingBody)));
}

#[test]
fn other_items_are_refused() {
    let items = vec![
        ModuleItem::Const { name: "OTHER".to_string(), text: None },
        ModuleItem::Other,
        ModuleItem::Const { name: "JS".to_string(), text: None },
    ];
    assert!(matches!(check_items(&items), Some(ItemRefusal::UnsupportedItem)));
}
