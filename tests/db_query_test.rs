use feodb::{Config, DbError, DB};
use serde_json::Value;

fn get_json_data(id: u64) -> String {
    format!(
        "{{\"name\":\"John Doe\",\"id\":{},\"phones\":[\"+44 1234567\",\"+44 2345678\",\"+44 2345678\"]}}",
        id
    )
}

fn setup_db() -> Result<DB, DbError> {
    let config = Config {
        mem_table_max_size: 1000 * 64,
        max_segment_size: 20000 * 64,
    };
    let mut db = DB::create_with_config(config, Vec::new(), Vec::new())?;
    for key in 1..1001 {
        db.insert(key, get_json_data(key))?;
    }
    Ok(db)
}

#[test]
fn basic_find_by_id() -> Result<(), DbError> {
    let db = setup_db()?;
    let document = db.find_by_id(&5)?.unwrap();
    assert_eq!(*document.get("id").unwrap(), Value::from(5));
    Ok(())
}

#[test]
fn basic_find_by_range_id() -> Result<(), DbError> {
    let db = setup_db()?;
    let documents = db.find_by_id_range(&11, &100)?;
    assert_eq!(documents.len(), 90);
    Ok(())
}
