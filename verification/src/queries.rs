//! The read-side query parameters: the sort order of the project listing,
//! its SQL fragments, and the filter parameters the listing endpoint
//! accepts.

use vstd::prelude::*;

verus! {

/// The sort orders the project listing offers.
#[derive(Clone, Copy, Debug, PartialEq, Eq, Structural)]
pub enum Sort {
    TimeAsc,
    TimeDesc,
    NameAsc,
    NameDesc,
    RecentAsc,
    RecentDesc,
}

impl Default for Sort {
    /// Listings sort by newest first unless asked otherwise.
    fn default() -> (r: Self)
        ensures
            r == Sort::TimeDesc,
    {
        Sort::TimeDesc
    }
}

/// The join fragment `get_order_by` returns for `s`.
pub open spec fn order_by_join(s: Sort) -> Seq<char> {
    match s {
        Sort::TimeAsc => r#"
                LEFT JOIN (
                  SELECT
                    DISTINCT ON (transactions.args ->> 'account_id') transactions.args ->> 'account_id' as account_id,
                    transactions.timestamp
                  FROM
                    transactions
                  WHERE
                    transactions.method_name = 'add_project'
                  ORDER BY
                    transactions.args ->> 'account_id' ASC,
                    transactions.timestamp ASC
                ) as txs ON projects.id = txs.account_id
                "#@,
        Sort::TimeDesc => r#"
                LEFT JOIN (
                  SELECT
                    DISTINCT ON (transactions.args ->> 'account_id') transactions.args ->> 'account_id' as account_id,
                    transactions.timestamp
                  FROM
                    transactions
                  WHERE
                    transactions.method_name = 'add_project'
                  ORDER BY
                    transactions.args ->> 'account_id' ASC,
                    transactions.timestamp DESC
                ) as txs ON projects.id = txs.account_id
                "#@,
        Sort::NameAsc => ""@,
        Sort::NameDesc => ""@,
        Sort::RecentAsc => r#"
                LEFT JOIN (
                  SELECT
                    DISTINCT ON (
                      COALESCE(
                        transactions.args ->> 'account_id',
                        transactions.args ->> 'project_id'
                      )
                    ) COALESCE(
                      transactions.args ->> 'account_id',
                      transactions.args ->> 'project_id'
                    ) as account_id,
                    transactions.method_name,
                    transactions.timestamp
                  FROM
                    transactions
                  WHERE
                    COALESCE(
                      transactions.args ->> 'account_id',
                      transactions.args ->> 'project_id'
                    ) IS NOT NULL
                    AND transactions.method_name IN ('add_project', 'edit_project')
                  ORDER BY
                    COALESCE(
                      transactions.args ->> 'account_id',
                      transactions.args ->> 'project_id'
                    ) ASC,
                    transactions.timestamp ASC
                ) as txs ON projects.id = txs.account_id
                "#@,
        Sort::RecentDesc => r#"
                LEFT JOIN (
                  SELECT
                    DISTINCT ON (
                      COALESCE(
                        transactions.args ->> 'account_id',
                        transactions.args ->> 'project_id'
                      )
                    ) COALESCE(
                      transactions.args ->> 'account_id',
                      transactions.args ->> 'project_id'
                    ) as account_id,
                    transactions.method_name,
                    transactions.timestamp
                  FROM
                    transactions
                  WHERE
                    COALESCE(
                      transactions.args ->> 'account_id',
                      transactions.args ->> 'project_id'
                    ) IS NOT NULL
                    AND transactions.method_name IN ('add_project', 'edit_project')
                  ORDER BY
                    COALESCE(
                      transactions.args ->> 'account_id',
                      transactions.args ->> 'project_id'
                    ) ASC,
                    transactions.timestamp DESC
                ) as txs ON projects.id = txs.account_id
                "#@,
    }
}

/// The ORDER BY fragment `get_order_by` returns for `s`.
pub open spec fn order_by_clause(s: Sort) -> Seq<char> {
    match s {
        Sort::TimeAsc => "ORDER BY txs.timestamp ASC"@,
        Sort::TimeDesc => "ORDER BY txs.timestamp DESC"@,
        Sort::NameAsc => "ORDER BY NULLIF(projects.name, '') ASC NULLS LAST"@,
        Sort::NameDesc => "ORDER BY NULLIF(projects.name, '') DESC NULLS LAST"@,
        Sort::RecentAsc => "ORDER BY txs.timestamp ASC"@,
        Sort::RecentDesc => "ORDER BY txs.timestamp DESC"@,
    }
}

impl Sort {
    /// The SQL join fragment and ORDER BY fragment of this sort order, for
    /// the project listing query.
    pub fn get_order_by(&self) -> (r: (&'static str, &'static str))
        ensures
            r.0@ == order_by_join(*self),
            r.1@ == order_by_clause(*self),
    {
        match self {
            Sort::TimeAsc => (
                r#"
                LEFT JOIN (
                  SELECT
                    DISTINCT ON (transactions.args ->> 'account_id') transactions.args ->> 'account_id' as account_id,
                    transactions.timestamp
                  FROM
                    transactions
                  WHERE
                    transactions.method_name = 'add_project'
                  ORDER BY
                    transactions.args ->> 'account_id' ASC,
                    transactions.timestamp ASC
                ) as txs ON projects.id = txs.account_id
                "#,
                "ORDER BY txs.timestamp ASC",
            ),
            Sort::TimeDesc => (
                r#"
                LEFT JOIN (
                  SELECT
                    DISTINCT ON (transactions.args ->> 'account_id') transactions.args ->> 'account_id' as account_id,
                    transactions.timestamp
                  FROM
                    transactions
                  WHERE
                    transactions.method_name = 'add_project'
                  ORDER BY
                    transactions.args ->> 'account_id' ASC,
                    transactions.timestamp DESC
                ) as txs ON projects.id = txs.account_id
                "#,
                "ORDER BY txs.timestamp DESC",
            ),
            Sort::NameAsc => ("", "ORDER BY NULLIF(projects.name, '') ASC NULLS LAST"),
            Sort::NameDesc => ("", "ORDER BY NULLIF(projects.name, '') DESC NULLS LAST"),
            Sort::RecentAsc => (
                r#"
                LEFT JOIN (
                  SELECT
                    DISTINCT ON (
                      COALESCE(
                        transactions.args ->> 'account_id',
                        transactions.args ->> 'project_id'
                      )
                    ) COALESCE(
                      transactions.args ->> 'account_id',
                      transactions.args ->> 'project_id'
                    ) as account_id,
                    transactions.method_name,
                    transactions.timestamp
                  FROM
                    transactions
                  WHERE
                    COALESCE(
                      transactions.args ->> 'account_id',
                      transactions.args ->> 'project_id'
                    ) IS NOT NULL
                    AND transactions.method_name IN ('add_project', 'edit_project')
                  ORDER BY
                    COALESCE(
                      transactions.args ->> 'account_id',
                      transactions.args ->> 'project_id'
                    ) ASC,
                    transactions.timestamp ASC
                ) as txs ON projects.id = txs.account_id
                "#,
                "ORDER BY txs.timestamp ASC",
            ),
            Sort::RecentDesc => (
                r#"
                LEFT JOIN (
                  SELECT
                    DISTINCT ON (
                      COALESCE(
                        transactions.args ->> 'account_id',
                        transactions.args ->> 'project_id'
                      )
                    ) COALESCE(
                      transactions.args ->> 'account_id',
                      transactions.args ->> 'project_id'
                    ) as account_id,
                    transactions.method_name,
                    transactions.timestamp
                  FROM
                    transactions
                  WHERE
                    COALESCE(
                      transactions.args ->> 'account_id',
                      transactions.args ->> 'project_id'
                    ) IS NOT NULL
                    AND transactions.method_name IN ('add_project', 'edit_project')
                  ORDER BY
                    COALESCE(
                      transactions.args ->> 'account_id',
                      transactions.args ->> 'project_id'
                    ) ASC,
                    transactions.timestamp DESC
                ) as txs ON projects.id = txs.account_id
                "#,
                "ORDER BY txs.timestamp DESC",
            ),
        }
    }
}

/// The filter parameters of the project listing endpoint. Every filter is
/// optional; list-valued filters keep the order they were supplied in.
#[derive(Clone, Debug)]
pub struct Params {
    pub sort: Sort,
    pub vertical: Option<Vec<String>>,
    pub integration: Option<Vec<String>>,
    pub dev: Option<Vec<String>>,
    pub stage: Option<Vec<String>>,
    pub size: Option<Vec<(u32, u32)>>,
    pub distribution: Option<Vec<String>>,
    pub from: Option<u32>,
    pub limit: Option<u32>,
    pub search: Option<String>,
}

impl Default for Params {
    /// No filters, newest first.
    fn default() -> (r: Self)
        ensures
            r.sort == Sort::TimeDesc,
            r.vertical is None,
            r.integration is None,
            r.dev is None,
            r.stage is None,
            r.size is None,
            r.distribution is None,
            r.from is None,
            r.limit is None,
            r.search is None,
    {
        Params {
            sort: Sort::TimeDesc,
            vertical: None,
            integration: None,
            dev: None,
            stage: None,
            size: None,
            distribution: None,
            from: None,
            limit: None,
            search: None,
        }
    }
}

/// The mathematical value of one query piece.
pub ghost enum QueryPieceView {
    /// A literal SQL fragment.
    Sql(Seq<char>),
    /// A bound 32-bit unsigned integer.
    Uint(u32),
    /// A bound text value.
    Text(Seq<char>),
    /// A bound list of text values.
    TextList(Seq<Seq<char>>),
}

/// One piece of the project listing query, in the order the store's query
/// builder receives them: either a SQL fragment or a value bound as a
/// parameter.
pub enum QueryPiece {
    Sql(String),
    Uint(u32),
    Text(String),
    TextList(Vec<String>),
}

impl View for QueryPiece {
    type V = QueryPieceView;

    open spec fn view(&self) -> QueryPieceView {
        match self {
            QueryPiece::Sql(s) => QueryPieceView::Sql(s@),
            QueryPiece::Uint(v) => QueryPieceView::Uint(*v),
            QueryPiece::Text(s) => QueryPieceView::Text(s@),
            QueryPiece::TextList(v) => QueryPieceView::TextList(
                v@.map_values(|e: String| e@),
            ),
        }
    }
}

/// The views of a piece sequence.
pub open spec fn piece_views(s: Seq<QueryPiece>) -> Seq<QueryPieceView> {
    s.map_values(|p: QueryPiece| p@)
}

/// The fragment that opens the WHERE clause, or continues it once one
/// filter is already in place.
pub open spec fn where_prefix(has_where: bool) -> QueryPieceView {
    QueryPieceView::Sql(
        if has_where {
            " AND "@
        } else {
            "WHERE "@
        },
    )
}

/// The vertical filter clause, where the filter is set; it opens the
/// WHERE clause.
pub open spec fn vertical_clause(items: Option<Vec<String>>) -> (Seq<QueryPieceView>, bool) {
    match items {
        Some(v) => (
            seq![
                QueryPieceView::Sql("WHERE projects.vertical ?| "@),
                QueryPieceView::TextList(v@.map_values(|e: String| e@)),
            ],
            true,
        ),
        None => (Seq::empty(), false),
    }
}

/// One `column = ANY (...)` filter clause, where the filter is set.
pub open spec fn any_clause(has_where: bool, open_sql: Seq<char>, items: Option<Vec<String>>) -> (
    Seq<QueryPieceView>,
    bool,
) {
    match items {
        Some(v) => (
            seq![
                where_prefix(has_where),
                QueryPieceView::Sql(open_sql),
                QueryPieceView::TextList(v@.map_values(|e: String| e@)),
                QueryPieceView::Sql(") "@),
            ],
            true,
        ),
        None => (Seq::empty(), has_where),
    }
}

/// The pieces of one team-size disjunct: the counting subquery and the two
/// bound ends of the range, with ` OR ` between disjuncts.
pub open spec fn size_entry_pieces(first: bool, from: u32, to: u32) -> Seq<QueryPieceView> {
    (if first {
        Seq::empty()
    } else {
        seq![QueryPieceView::Sql(" OR "@)]
    }) + seq![
        QueryPieceView::Sql(
            r#"
        (
          SELECT
            COUNT(*)
          FROM
            jsonb_object_keys(projects.team)
        ) + array_length(projects.founders, 1) BETWEEN
        "#@,
        ),
        QueryPieceView::Uint(from),
        QueryPieceView::Sql(" AND "@),
        QueryPieceView::Uint(to),
    ]
}

/// The pieces of every team-size disjunct, in order.
pub open spec fn size_entries(sizes: Seq<(u32, u32)>) -> Seq<QueryPieceView>
    decreases sizes.len(),
{
    if sizes.len() == 0 {
        Seq::empty()
    } else {
        size_entries(sizes.drop_last()) + size_entry_pieces(
            sizes.len() == 1,
            sizes.last().0,
            sizes.last().1,
        )
    }
}

/// The whole team-size clause, where the filter is set.
pub open spec fn size_clause(has_where: bool, sizes: Option<Vec<(u32, u32)>>) -> (
    Seq<QueryPieceView>,
    bool,
) {
    match sizes {
        Some(v) => (
            seq![where_prefix(has_where), QueryPieceView::Sql(" ( "@)] + size_entries(v@) + seq![
                QueryPieceView::Sql(" ) "@),
            ],
            true,
        ),
        None => (Seq::empty(), has_where),
    }
}

/// The free-text search clause, where a search string is set: the pattern
/// `%search%` matched against name, id, tagline and description.
pub open spec fn search_clause(has_where: bool, search: Option<String>) -> Seq<QueryPieceView> {
    match search {
        Some(s) => {
            let pat = "%"@ + s@ + "%"@;
            seq![
                QueryPieceView::Sql(
                    if has_where {
                        " AND "@
                    } else {
                        " WHERE "@
                    },
                ),
                QueryPieceView::Sql(" (projects.name ILIKE "@),
                QueryPieceView::Text(pat),
                QueryPieceView::Sql(" OR projects.id ILIKE "@),
                QueryPieceView::Text(pat),
                QueryPieceView::Sql(" OR projects.tagline ILIKE "@),
                QueryPieceView::Text(pat),
                QueryPieceView::Sql(" OR projects.description ILIKE "@),
                QueryPieceView::Text(pat),
                QueryPieceView::Sql(") "@),
            ]
        },
        None => Seq::empty(),
    }
}

/// An optional trailing clause binding one number (LIMIT, OFFSET).
pub open spec fn bound_clause(sql: Seq<char>, v: Option<u32>) -> Seq<QueryPieceView> {
    match v {
        Some(x) => seq![QueryPieceView::Sql(sql), QueryPieceView::Uint(x)],
        None => Seq::empty(),
    }
}

/// Every piece of the project listing query for `p`, in the order the
/// query builder receives them.
pub open spec fn projects_query(p: Params) -> Seq<QueryPieceView> {
    let head = seq![
        QueryPieceView::Sql(
            r#"
        SELECT
          projects.id
        FROM
          projects
        "#@,
        ),
        QueryPieceView::Sql(order_by_join(p.sort)),
    ];
    let (vertical, hw1) = vertical_clause(p.vertical);
    let (integration, hw2) = any_clause(hw1, "projects.integration = ANY ("@, p.integration);
    let (stage, hw3) = any_clause(hw2, "projects.stage = ANY ("@, p.stage);
    let (dev, hw4) = any_clause(hw3, "projects.dev = ANY ("@, p.dev);
    let (size, hw5) = size_clause(hw4, p.size);
    let (distribution, hw6) = any_clause(hw5, "projects.distribution = ANY ("@, p.distribution);
    let search = search_clause(hw6, p.search);
    let tail = seq![QueryPieceView::Sql(" "@ + order_by_clause(p.sort))] + bound_clause(
        " LIMIT "@,
        p.limit,
    ) + bound_clause(" OFFSET "@, p.from);
    head + vertical + integration + stage + dev + size + distribution + search + tail
}

/// Copies a list of bound text values.
fn clone_strings(v: &Vec<String>) -> (r: Vec<String>)
    ensures
        r@ == v@,
{
    let mut r: Vec<String> = Vec::new();
    let n = v.len();
    let mut i: usize = 0;
    while i < n
        invariant
            n == v@.len(),
            0 <= i <= n,
            r@ == v@.subrange(0, i as int),
        decreases n - i,
    {
        r.push(v[i].clone());
        proof {
            assert(r@ =~= v@.subrange(0, i + 1 as int));
        }
        i += 1;
    }
    proof {
        assert(v@.subrange(0, n as int) =~= v@);
    }
    r
}

/// Appends one `column = ANY (...)` clause where the filter is set;
/// returns whether a WHERE clause is now in place.
fn push_any_clause(
    out: &mut Vec<QueryPiece>,
    has_where: bool,
    open_sql: &'static str,
    items: &Option<Vec<String>>,
) -> (hw: bool)
    ensures
        ({
            let (pieces, hw2) = any_clause(has_where, open_sql@, *items);
            piece_views(final(out)@) == piece_views(old(out)@) + pieces && hw == hw2
        }),
{
    let ghost before = out@;
    match items {
        Some(v) => {
            out.push(
                QueryPiece::Sql(
                    if has_where {
                        " AND "
                    } else {
                        "WHERE "
                    }.to_owned(),
                ),
            );
            out.push(QueryPiece::Sql(open_sql.to_owned()));
            out.push(QueryPiece::TextList(clone_strings(v)));
            out.push(QueryPiece::Sql(") ".to_owned()));
            proof {
                assert(piece_views(out@) =~= piece_views(before) + any_clause(
                    has_where,
                    open_sql@,
                    *items,
                ).0);
            }
            true
        },
        None => {
            proof {
                assert(piece_views(out@) =~= piece_views(before)
                    + Seq::<QueryPieceView>::empty());
            }
            has_where
        },
    }
}

/// Builds the project listing query for `params`: the piece sequence the
/// store's query builder receives, SQL fragments and bound values in
/// order. Pure construction: nothing is executed here.
/// Appends the team-size clause where the filter is set; returns whether
/// a WHERE clause is now in place.
#[verifier::rlimit(50)]
fn push_size_clause(
    out: &mut Vec<QueryPiece>,
    has_where: bool,
    sizes_opt: &Option<Vec<(u32, u32)>>,
) -> (hw: bool)
    ensures
        ({
            let (pieces, hw2) = size_clause(has_where, *sizes_opt);
            piece_views(final(out)@) == piece_views(old(out)@) + pieces && hw == hw2
        }),
{
    let ghost before = piece_views(out@);
    match sizes_opt {
        Some(sizes) => {
            out.push(
                QueryPiece::Sql(
                    if has_where {
                        " AND "
                    } else {
                        "WHERE "
                    }.to_owned(),
                ),
            );
            out.push(QueryPiece::Sql(" ( ".to_owned()));
            let ghost opened = piece_views(out@);
            proof {
                assert(opened =~= before + seq![
                    where_prefix(has_where),
                    QueryPieceView::Sql(" ( "@),
                ]);
            }
            let n = sizes.len();
            let mut i: usize = 0;
            proof {
                assert(size_entries(sizes@.subrange(0, 0)) =~= Seq::<QueryPieceView>::empty());
                assert(opened + Seq::<QueryPieceView>::empty() =~= opened);
            }
            while i < n
                invariant
                    n == sizes@.len(),
                    0 <= i <= n,
                    piece_views(out@) == opened + size_entries(sizes@.subrange(0, i as int)),
                decreases n - i,
            {
                let ghost prefix = sizes@.subrange(0, i as int);
                if i > 0 {
                    out.push(QueryPiece::Sql(" OR ".to_owned()));
                }
                out.push(
                    QueryPiece::Sql(
                        r#"
        (
          SELECT
            COUNT(*)
          FROM
            jsonb_object_keys(projects.team)
        ) + array_length(projects.founders, 1) BETWEEN
        "#.to_owned(),
                    ),
                );
                let (from, to) = sizes[i];
                out.push(QueryPiece::Uint(from));
                out.push(QueryPiece::Sql(" AND ".to_owned()));
                out.push(QueryPiece::Uint(to));
                proof {
                    let entry = size_entry_pieces(i == 0, sizes@[i as int].0, sizes@[i as int].1);
                    assert(sizes@.subrange(0, i + 1 as int).drop_last() =~= prefix);
                    assert(sizes@.subrange(0, i + 1 as int).last() == sizes@[i as int]);
                    assert(size_entries(sizes@.subrange(0, i + 1 as int)) == size_entries(prefix)
                        + entry);
                    assert(piece_views(out@) =~= (opened + size_entries(prefix)) + entry);
                }
                i += 1;
            }
            out.push(QueryPiece::Sql(" ) ".to_owned()));
            proof {
                assert(sizes@.subrange(0, n as int) =~= sizes@);
                assert(size_clause(has_where, *sizes_opt).0 == seq![
                    where_prefix(has_where),
                    QueryPieceView::Sql(" ( "@),
                ] + size_entries(sizes@) + seq![QueryPieceView::Sql(" ) "@)]);
                assert(piece_views(out@) =~= opened + size_entries(sizes@) + seq![
                    QueryPieceView::Sql(" ) "@),
                ]);
                assert(piece_views(out@) =~= before + size_clause(has_where, *sizes_opt).0);
            }
            true
        },
        None => {
            proof {
                assert(piece_views(out@) =~= before + Seq::<QueryPieceView>::empty());
            }
            has_where
        },
    }
}

/// Appends the free-text search clause where a search string is set.
#[verifier::rlimit(50)]
fn push_search_clause(out: &mut Vec<QueryPiece>, has_where: bool, search_opt: &Option<String>)
    ensures
        piece_views(final(out)@) == piece_views(old(out)@) + search_clause(
            has_where,
            *search_opt,
        ),
{
    let ghost before = piece_views(out@);
    match search_opt {
        Some(search) => {
            out.push(
                QueryPiece::Sql(
                    if has_where {
                        " AND "
                    } else {
                        " WHERE "
                    }.to_owned(),
                ),
            );
            let pattern = "%".to_owned().concat(search.as_str()).concat("%");
            out.push(QueryPiece::Sql(" (projects.name ILIKE ".to_owned()));
            out.push(QueryPiece::Text(pattern.clone()));
            out.push(QueryPiece::Sql(" OR projects.id ILIKE ".to_owned()));
            out.push(QueryPiece::Text(pattern.clone()));
            out.push(QueryPiece::Sql(" OR projects.tagline ILIKE ".to_owned()));
            out.push(QueryPiece::Text(pattern.clone()));
            out.push(QueryPiece::Sql(" OR projects.description ILIKE ".to_owned()));
            out.push(QueryPiece::Text(pattern));
            out.push(QueryPiece::Sql(") ".to_owned()));
            proof {
                assert(piece_views(out@) =~= before + search_clause(has_where, *search_opt));
            }
        },
        None => {
            proof {
                assert(piece_views(out@) =~= before + Seq::<QueryPieceView>::empty());
            }
        },
    }
}

#[verifier::rlimit(100)]
pub fn all_projects_query(params: &Params) -> (r: Vec<QueryPiece>)
    ensures
        piece_views(r@) == projects_query(*params),
{
    let mut out: Vec<QueryPiece> = Vec::new();
    out.push(
        QueryPiece::Sql(
            r#"
        SELECT
          projects.id
        FROM
          projects
        "#.to_owned(),
        ),
    );
    let (join, order_by) = params.sort.get_order_by();
    out.push(QueryPiece::Sql(join.to_owned()));
    let ghost head = seq![
        QueryPieceView::Sql(
            r#"
        SELECT
          projects.id
        FROM
          projects
        "#@,
        ),
        QueryPieceView::Sql(order_by_join(params.sort)),
    ];
    proof {
        assert(piece_views(out@) =~= head);
    }

    let mut has_where = false;
    match &params.vertical {
        Some(v) => {
            out.push(QueryPiece::Sql("WHERE projects.vertical ?| ".to_owned()));
            out.push(QueryPiece::TextList(clone_strings(v)));
            has_where = true;
        },
        None => {},
    }
    let ghost vertical_part = vertical_clause(params.vertical);
    proof {
        assert(piece_views(out@) =~= head + vertical_part.0);
        assert(has_where == vertical_part.1);
    }

    has_where = push_any_clause(&mut out, has_where, "projects.integration = ANY (", &params.integration);
    let ghost integration_part = any_clause(vertical_part.1, "projects.integration = ANY ("@, params.integration);
    has_where = push_any_clause(&mut out, has_where, "projects.stage = ANY (", &params.stage);
    let ghost stage_part = any_clause(integration_part.1, "projects.stage = ANY ("@, params.stage);
    has_where = push_any_clause(&mut out, has_where, "projects.dev = ANY (", &params.dev);
    let ghost dev_part = any_clause(stage_part.1, "projects.dev = ANY ("@, params.dev);
    let ghost base4 = head + vertical_part.0 + integration_part.0 + stage_part.0 + dev_part.0;
    proof {
        assert(piece_views(out@) =~= base4);
        assert(has_where == dev_part.1);
    }

    has_where = push_size_clause(&mut out, has_where, &params.size);
    let ghost size_part = size_clause(dev_part.1, params.size);
    let ghost base5 = base4 + size_part.0;
    proof {
        assert(piece_views(out@) =~= base5);
        assert(has_where == size_part.1);
    }

    has_where = push_any_clause(&mut out, has_where, "projects.distribution = ANY (", &params.distribution);
    let ghost distribution_part = any_clause(size_part.1, "projects.distribution = ANY ("@, params.distribution);

    push_search_clause(&mut out, has_where, &params.search);
    let ghost search_part = search_clause(distribution_part.1, params.search);
    let ghost base7 = base5 + distribution_part.0 + search_part;
    proof {
        assert(piece_views(out@) =~= base7);
    }

    out.push(QueryPiece::Sql(" ".to_owned().concat(order_by)));
    match params.limit {
        Some(limit) => {
            out.push(QueryPiece::Sql(" LIMIT ".to_owned()));
            out.push(QueryPiece::Uint(limit));
        },
        None => {},
    }
    match params.from {
        Some(from) => {
            out.push(QueryPiece::Sql(" OFFSET ".to_owned()));
            out.push(QueryPiece::Uint(from));
        },
        None => {},
    }
    proof {
        let tail = seq![QueryPieceView::Sql(" "@ + order_by_clause(params.sort))] + bound_clause(
            " LIMIT "@,
            params.limit,
        ) + bound_clause(" OFFSET "@, params.from);
        assert(piece_views(out@) =~= base7 + tail);
        assert(projects_query(*params) =~= base7 + tail);
        assert(piece_views(out@) =~= projects_query(*params));
    }
    out
}

} // verus!
