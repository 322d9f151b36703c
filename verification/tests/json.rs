use roblox_luau_env::json::{
    JsonData, JsonEntry, LuaData, LuaEntry, LuaKey, decode_parsed, json_decode, json_to_lua,
    lua_value_to_json, table_to_json,
};
use roblox_luau_env::math::Number;

fn number(value: f64) -> Number {
    Number { bits: value.to_bits() }
}

fn named(key: &str, value: LuaData) -> LuaEntry {
    LuaEntry { key: LuaKey::String(key.to_string()), value }
}

fn at(index: i64, value: LuaData) -> LuaEntry {
    LuaEntry { key: LuaKey::Integer(index), value }
}

/// The document as text.
fn show(json: &JsonData) -> String {
    match json {
        JsonData::Null => "null".to_string(),
        JsonData::Bool(b) => b.to_string(),
        JsonData::Integer(i) => i.to_string(),
        JsonData::Number(n) => f64::from_bits(n.bits).to_string(),
        JsonData::String(s) => format!("{s:?}"),
        JsonData::Array(items) => {
            let parts: Vec<String> = items.iter().map(show).collect();
            format!("[{}]", parts.join(","))
        }
        JsonData::Object(entries) => {
            let parts: Vec<String> = entries
                .iter()
                .map(|entry| format!("{:?}:{}", entry.key, show(&entry.value)))
                .collect();
            format!("{{{}}}", parts.join(","))
        }
    }
}

fn encode(entries: Vec<LuaEntry>) -> String {
    show(&table_to_json(&entries).expect("document"))
}

#[test]
fn lists_become_arrays() {
    assert_eq!(encode(Vec::new()), "[]");
    assert_eq!(
        encode(vec![
            LuaEntry { key: LuaKey::Number(number(2.0)), value: LuaData::Boolean(true) },
            at(1, LuaData::Integer(7)),
            at(3, LuaData::Nil),
        ]),
        "[7,true,null]"
    );
}

#[test]
fn other_tables_become_objects_with_sorted_keys() {
    assert_eq!(
        encode(vec![
            named("b", LuaData::Integer(1)),
            named("a", LuaData::String("x".to_string())),
            at(10, LuaData::Integer(2)),
        ]),
        "{\"10\":2,\"a\":\"x\",\"b\":1}"
    );
    assert_eq!(encode(vec![at(1, LuaData::Integer(1)), at(3, LuaData::Integer(3))]), "{\"1\":1,\"3\":3}");
    assert_eq!(
        encode(vec![named("k", LuaData::Table(vec![at(1, LuaData::Number(number(0.5)))]))]),
        "{\"k\":[0.5]}"
    );
    assert_eq!(
        encode(vec![named("1", LuaData::Integer(1)), at(1, LuaData::Integer(2))]),
        "{\"1\":2}"
    );
}

#[test]
fn values_that_json_has_not_are_refused() {
    assert_eq!(
        lua_value_to_json(&LuaData::Number(number(f64::NAN))).unwrap_err().message(),
        "Cannot JSON encode NaN or infinity"
    );
    assert_eq!(
        lua_value_to_json(&LuaData::Other).unwrap_err().message(),
        "HttpService:JSONEncode only supports nil, booleans, numbers, strings, and tables"
    );
    assert_eq!(
        lua_value_to_json(&LuaData::Malformed("bad".to_string())).unwrap_err().message(),
        "bad"
    );
    for key in vec![LuaKey::Integer(0), LuaKey::Integer(-1), LuaKey::Number(number(1.5)), LuaKey::Other]
    {
        let table = LuaData::Table(vec![LuaEntry { key, value: LuaData::Boolean(true) }]);
        assert_eq!(
            lua_value_to_json(&table).unwrap_err().message(),
            "HttpService:JSONEncode only supports string and positive integer table keys"
        );
    }
    let table = LuaData::Table(vec![LuaEntry {
        key: LuaKey::Malformed("bad key".to_string()),
        value: LuaData::Other,
    }]);
    assert_eq!(lua_value_to_json(&table).unwrap_err().message(), "bad key");
}

#[test]
fn documents_become_tables() {
    let json = JsonData::Object(vec![
        JsonEntry {
            key: "a".to_string(),
            value: JsonData::Array(vec![JsonData::Bool(true), JsonData::Null, JsonData::Integer(3)]),
        },
        JsonEntry { key: "n".to_string(), value: JsonData::Null },
    ]);
    let LuaData::Table(entries) = json_to_lua(&json) else {
        panic!("expected a table");
    };
    assert_eq!(entries.len(), 1);
    assert!(matches!(&entries[0].key, LuaKey::String(key) if key == "a"));
    let LuaData::Table(items) = &entries[0].value else {
        panic!("expected a list");
    };
    assert_eq!(items.len(), 2);
    assert!(matches!(items[0].key, LuaKey::Integer(1)));
    assert!(matches!(items[1].key, LuaKey::Integer(3)));
    assert!(matches!(items[1].value, LuaData::Number(n) if n == number(3.0)));
}

#[test]
fn expressible_values_come_back() {
    let value = |second: LuaData| {
        LuaData::Table(vec![
            named("list", LuaData::Table(vec![at(1, LuaData::Boolean(false)), at(2, second)])),
            named("name", LuaData::String("x".to_string())),
        ])
    };
    let json = lua_value_to_json(&value(LuaData::Number(number(0.5)))).expect("document");
    let back = json_to_lua(&json);
    assert_eq!(format!("{back:?}"), format!("{:?}", value(LuaData::Number(number(0.5)))));
    let json = lua_value_to_json(&value(LuaData::Integer(4))).expect("document");
    let back = json_to_lua(&json);
    assert_eq!(format!("{back:?}"), format!("{:?}", value(LuaData::Number(number(4.0)))));
}

/// The value as text, with floating point numbers written out.
fn tell(value: &LuaData) -> String {
    match value {
        LuaData::Nil => "nil".to_string(),
        LuaData::Boolean(b) => b.to_string(),
        LuaData::Integer(i) => format!("integer {i}"),
        LuaData::Number(n) => format!("{:?}", f64::from_bits(n.bits)),
        LuaData::String(s) => format!("{s:?}"),
        LuaData::Table(entries) => {
            let parts: Vec<String> = entries
                .iter()
                .map(|entry| match &entry.key {
                    LuaKey::Integer(i) => format!("[{i}]={}", tell(&entry.value)),
                    LuaKey::String(key) => format!("{key}={}", tell(&entry.value)),
                    _ => panic!("unexpected key"),
                })
                .collect();
            format!("{{{}}}", parts.join(","))
        }
        LuaData::Malformed(_) | LuaData::Other => panic!("unexpected value"),
    }
}

fn decode(text: &str) -> String {
    tell(&json_decode(text).expect("value"))
}

#[test]
fn texts_become_values() {
    assert_eq!(decode(" null "), "nil");
    assert_eq!(decode("true"), "true");
    assert_eq!(decode("\"a\\u00e9\\n\""), "\"aé\\n\"");
    assert_eq!(decode("3"), "3.0");
    assert_eq!(decode("-2"), "-2.0");
    assert_eq!(decode("-0"), "-0.0");
    assert_eq!(decode("1.5e3"), "1500.0");
    assert_eq!(decode("9007199254740993"), "9007199254740992.0");
    assert_eq!(decode("18446744073709551615"), "1.8446744073709552e19");
    assert_eq!(decode("[]"), "{}");
    assert_eq!(decode("[1, null, [true]]"), "{[1]=1.0,[3]={[1]=true}}");
    assert_eq!(
        decode("{\"b\": {\"x\": false}, \"a\": \"t\", \"n\": null}"),
        "{a=\"t\",b={x=false}}"
    );
    assert_eq!(decode("{\"k\": 1, \"k\": 2}"), "{k=2.0}");
}

#[test]
fn texts_that_are_no_documents_are_refused() {
    assert_eq!(
        json_decode("").unwrap_err().message(),
        "HttpService:JSONDecode failed: EOF while parsing a value at line 1 column 0"
    );
    assert_eq!(
        json_decode("[1,]").unwrap_err().message(),
        "HttpService:JSONDecode failed: trailing comma at line 1 column 4"
    );
    assert_eq!(
        json_decode("{} x").unwrap_err().message(),
        "HttpService:JSONDecode failed: trailing characters at line 1 column 4"
    );
}

#[test]
fn parsed_documents_are_decoded() {
    assert_eq!(
        decode_parsed(Err("bad".to_string())).unwrap_err().message(),
        "HttpService:JSONDecode failed: bad"
    );
    let value = decode_parsed(Ok(JsonData::Array(vec![JsonData::Integer(7)]))).expect("value");
    assert_eq!(tell(&value), "{[1]=7.0}");
}

#[test]
fn integers_become_the_nearest_numbers() {
    let mut values = vec![0, 1, 2, 3, 10, 9007199254740991, 9007199254740992, i64::MAX, i64::MIN];
    for shift in 0..63 {
        let power = 1i64 << shift;
        for offset in [-3, -1, 0, 1, 2, 3, 511, 512, 513, 1025] {
            values.push(power.wrapping_add(offset));
        }
        values.push(power | (power >> 53) | (power >> 52));
    }
    for value in values {
        for value in [value, value.wrapping_neg()] {
            assert_eq!(Number::nearest_to(value).bits, (value as f64).to_bits(), "{value}");
        }
    }
    assert_eq!(Number::nearest_to(9007199254740993).bits, 9007199254740992f64.to_bits());
    assert_eq!(Number::nearest_to(9007199254740995).bits, 9007199254740996f64.to_bits());
    assert_eq!(Number::nearest_to(9007199254740992).as_index(), Some(9007199254740992));
    assert_eq!(Number::nearest_to(-5).bits, Number::nearest_to(5).bits | (1 << 63));
}
